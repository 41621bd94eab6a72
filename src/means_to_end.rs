use vstd::prelude::*;

verus! {

/// A price recorded at a time.
#[derive(Debug, Clone, Copy, PartialEq, Eq, Structural)]
pub struct Deposit {
    pub timestamp: i32,
    pub price: i32,
}

/// A request for the mean price over the times `min_time..=max_time`.
#[derive(Debug, Clone, Copy, PartialEq, Eq, Structural)]
pub struct Query {
    pub min_time: i32,
    pub max_time: i32,
}

/// One nine-byte request of the protocol.
#[derive(Debug, Clone, Copy, PartialEq, Eq, Structural)]
pub enum Message {
    Insert(Deposit),
    Query(Query),
}

/// Why bytes could not be decoded.
#[derive(Debug, Clone, Copy, PartialEq, Eq, Structural)]
pub enum DecodeError {
    /// The first byte names no known request.
    NotSupported,
    /// An integer was not given by exactly four bytes.
    WrongLength,
}

/// The signed integer that four bytes give, most significant first, in two's
/// complement.
pub open spec fn be_i32(b: Seq<u8>) -> int {
    let u = b[0] as int * 0x100_0000 + b[1] as int * 0x1_0000 + b[2] as int * 0x100 + b[3] as int;
    if u >= 0x8000_0000 {
        u - 0x1_0000_0000
    } else {
        u
    }
}

/// Reads a big-endian `i32` from exactly four bytes.
pub fn decode_int32(bytes: &[u8]) -> (r: Result<i32, DecodeError>)
    ensures
        r is Ok <==> bytes@.len() == 4,
        r matches Ok(v) ==> v as int == be_i32(bytes@),
        r matches Err(e) ==> e == DecodeError::WrongLength,
{
    if bytes.len() != 4 {
        return Err(DecodeError::WrongLength);
    }
    let u: u32 = (bytes[0] as u32) * 0x100_0000 + (bytes[1] as u32) * 0x1_0000 + (bytes[2] as u32) * 0x100
        + bytes[3] as u32;
    if u >= 0x8000_0000 {
        Ok((u as i64 - 0x1_0000_0000) as i32)
    } else {
        Ok(u as i32)
    }
}

/// The request that nine bytes encode: a kind byte, `I` or `Q`, then two
/// big-endian `i32`.
pub open spec fn message_of(raw: Seq<u8>) -> Option<Message> {
    let first = be_i32(raw.subrange(1, 5));
    let second = be_i32(raw.subrange(5, 9));
    if raw[0] == 0x49u8 {
        Some(Message::Insert(Deposit { timestamp: first as i32, price: second as i32 }))
    } else if raw[0] == 0x51u8 {
        Some(Message::Query(Query { min_time: first as i32, max_time: second as i32 }))
    } else {
        None
    }
}

/// Decodes one request.
pub fn decode_message(raw_message: &[u8; 9]) -> (r: Result<Message, DecodeError>)
    ensures
        r is Ok <==> message_of(raw_message@) is Some,
        r matches Ok(m) ==> message_of(raw_message@) == Some(m),
        r matches Err(e) ==> e == DecodeError::NotSupported,
{
    let raw = raw_message.as_slice();
    let kind = raw[0];
    if kind != 0x49u8 && kind != 0x51u8 {
        return Err(DecodeError::NotSupported);
    }
    let first = decode_int32(vstd::slice::slice_subrange(raw, 1, 5));
    let second = decode_int32(vstd::slice::slice_subrange(raw, 5, 9));
    match (first, second) {
        (Ok(a), Ok(b)) => {
            if kind == 0x49u8 {
                Ok(Message::Insert(Deposit { timestamp: a, price: b }))
            } else {
                Ok(Message::Query(Query { min_time: a, max_time: b }))
            }
        },
        _ => Err(DecodeError::NotSupported),
    }
}

/// The prices of the deposits whose time lies in `lo..=hi`, in order.
pub open spec fn window_prices(ds: Seq<Deposit>, lo: int, hi: int) -> Seq<int>
    decreases ds.len(),
{
    if ds.len() == 0 {
        Seq::empty()
    } else {
        let earlier = window_prices(ds.drop_last(), lo, hi);
        let d = ds.last();
        if lo <= d.timestamp && d.timestamp <= hi {
            earlier.push(d.price as int)
        } else {
            earlier
        }
    }
}

pub open spec fn sum_of(s: Seq<int>) -> int
    decreases s.len(),
{
    if s.len() == 0 {
        0
    } else {
        sum_of(s.drop_last()) + s.last()
    }
}

/// Division that rounds toward zero.
pub open spec fn div_toward_zero(a: int, n: int) -> int {
    if a >= 0 {
        a / n
    } else {
        -((-a) / n)
    }
}

/// The mean of the prices, rounded toward zero; 0 where there are none.
pub open spec fn mean_of(s: Seq<int>) -> int {
    if s.len() == 0 {
        0
    } else {
        div_toward_zero(sum_of(s), s.len() as int)
    }
}

/// The prices that one connection has recorded.
pub struct Account {
    deposits: Vec<Deposit>,
}

impl View for Account {
    type V = Seq<Deposit>;

    closed spec fn view(&self) -> Seq<Deposit> {
        self.deposits@
    }
}

impl Account {
    /// An account with no deposits.
    pub fn new() -> (r: Account)
        ensures
            r@ == Seq::<Deposit>::empty(),
    {
        Account { deposits: vec![] }
    }

    /// Records a deposit.
    pub fn deposit(&mut self, deposit: Deposit)
        ensures
            final(self)@ == old(self)@.push(deposit),
    {
        self.deposits.push(deposit);
    }

    /// The mean price of the deposits timed in `min_time..=max_time`, rounded
    /// toward zero; 0 where there are none.
    pub fn query(&self, min_time: i32, max_time: i32) -> (r: i32)
        ensures
            r as int == mean_of(window_prices(self@, min_time as int, max_time as int)),
    {
        let ghost lo = min_time as int;
        let ghost hi = max_time as int;
        let mut sum: i128 = 0;
        let mut count: u64 = 0;
        let mut i: usize = 0;
        while i < self.deposits.len()
            invariant
                i <= self.deposits.len(),
                lo == min_time as int,
                hi == max_time as int,
                count <= i,
                sum as int == sum_of(window_prices(self@.subrange(0, i as int), lo, hi)),
                count as int == window_prices(self@.subrange(0, i as int), lo, hi).len(),
                -(count as int) * 0x8000_0000 <= sum as int <= count as int * 0x7fff_ffff,
            decreases self.deposits.len() - i,
        {
            proof {
                assert(self@.subrange(0, i + 1).drop_last() =~= self@.subrange(0, i as int));
            }
            let d = self.deposits[i];
            let ghost w = window_prices(self@.subrange(0, i as int), lo, hi);
            proof {
                assert(self@.subrange(0, i + 1).last() == d);
                assert(w.push(d.price as int).drop_last() =~= w);
            }
            if min_time <= d.timestamp && d.timestamp <= max_time {
                sum = sum + d.price as i128;
                count = count + 1;
            }
            i += 1;
        }
        proof {
            assert(self@.subrange(0, self@.len() as int) =~= self@);
        }
        if count == 0 {
            return 0;
        }
        if sum >= 0 {
            let q: u128 = (sum as u128) / (count as u128);
            proof {
                let (a, n) = (sum as int, count as int);
                assert(a / n <= 0x7fff_ffff) by (nonlinear_arith)
                    requires
                        0 <= a <= n * 0x7fff_ffff,
                        n > 0,
                ;
            }
            q as i32
        } else {
            let q: u128 = ((-sum) as u128) / (count as u128);
            proof {
                let (a, n) = (-(sum as int), count as int);
                assert(a / n <= 0x8000_0000) by (nonlinear_arith)
                    requires
                        0 <= a <= n * 0x8000_0000,
                        n > 0,
                ;
            }
            (-(q as i64)) as i32
        }
    }

    /// Carries out one request: records a deposit, or answers a query with
    /// its mean.
    pub fn apply(&mut self, message: Message) -> (r: Option<i32>)
        ensures
            message matches Message::Insert(d) ==> final(self)@ == old(self)@.push(d) && r is None,
            message matches Message::Query(q) ==> final(self)@ == old(self)@
                && r == Some(mean_of(window_prices(old(self)@, q.min_time as int, q.max_time as int)) as i32),
    {
        match message {
            Message::Insert(d) => {
                self.deposit(d);
                None
            },
            Message::Query(q) => Some(self.query(q.min_time, q.max_time)),
        }
    }
}

} // verus!
