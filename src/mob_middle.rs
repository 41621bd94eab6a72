use vstd::prelude::*;
use crate::pattern::{regex_replace_first, regex_replace_of};

verus! {

/// A Boguscoin address: a `7`, then 25 to 34 ASCII letters or digits, as a
/// whole line.
pub const COIN_PATTERN: &'static str = "(?m)^7[a-zA-Z0-9]{25,34}$";

/// The address that every Boguscoin address is replaced by.
pub const TONYS_ADDRESS: &'static str = "7YWHMfk9JZe0LM0g1ZauHuiSxhI";

/// The pieces of `s` between single spaces; as many as there are spaces,
/// plus one.
pub open spec fn split_spaces(s: Seq<char>) -> Seq<Seq<char>>
    decreases s.len(),
{
    if s.len() == 0 {
        seq![Seq::empty()]
    } else {
        let pieces = split_spaces(s.drop_last());
        if s.last() == ' ' {
            pieces.push(Seq::empty())
        } else {
            pieces.update(pieces.len() - 1, pieces.last().push(s.last()))
        }
    }
}

/// Pieces joined by single spaces.
pub open spec fn join_spaces(ts: Seq<Seq<char>>) -> Seq<char>
    decreases ts.len(),
{
    if ts.len() == 0 {
        Seq::empty()
    } else if ts.len() == 1 {
        ts[0]
    } else {
        join_spaces(ts.drop_last()) + " "@ + ts.last()
    }
}

/// One piece with its address, if it holds one, replaced.
pub open spec fn rewrite_piece(t: Seq<char>) -> Seq<char> {
    match regex_replace_of(COIN_PATTERN@, t, TONYS_ADDRESS@) {
        Some(r) => r,
        None => t,
    }
}

pub open spec fn rewritten(s: Seq<char>) -> Seq<char> {
    join_spaces(split_spaces(s).map_values(|t: Seq<char>| rewrite_piece(t)))
}

/// The rewritten pieces, each followed by a space.
spec fn emitted(ts: Seq<Seq<char>>) -> Seq<char>
    decreases ts.len(),
{
    if ts.len() == 0 {
        Seq::empty()
    } else {
        emitted(ts.drop_last()) + rewrite_piece(ts.last()) + " "@
    }
}

proof fn lemma_emitted_then_last(ts: Seq<Seq<char>>, t: Seq<char>)
    ensures
        join_spaces(ts.push(t).map_values(|x: Seq<char>| rewrite_piece(x))) == emitted(ts) + rewrite_piece(t),
    decreases ts.len(),
{
    let f = |x: Seq<char>| rewrite_piece(x);
    let all = ts.push(t).map_values(f);
    if ts.len() == 0 {
        assert(emitted(ts) + rewrite_piece(t) =~= rewrite_piece(t));
    } else {
        let prev = ts.drop_last();
        lemma_emitted_then_last(prev, ts.last());
        assert(all.drop_last() =~= prev.push(ts.last()).map_values(f));
        assert(prev.push(ts.last()) =~= ts);
        assert(emitted(prev) + rewrite_piece(ts.last()) + " "@ + rewrite_piece(t)
            =~= emitted(ts) + rewrite_piece(t));
    }
}

/// Replaces every space-separated piece of the message that is a Boguscoin
/// address by Tony's address; spaces and other pieces stay as they are.
pub fn change_coins_in_message(message: String) -> (r: String)
    ensures
        r@ == rewritten(message@),
{
    let s = message.as_str();
    let n = s.unicode_len();
    let mut out = String::new();
    let mut start: usize = 0;
    let mut i: usize = 0;
    let ghost mut done: Seq<Seq<char>> = Seq::empty();
    proof {
        assert(s@.subrange(0, 0) =~= Seq::<char>::empty());
        assert(done.push(Seq::<char>::empty()) =~= seq![Seq::<char>::empty()]);
    }
    while i < n
        invariant
            n == s@.len(),
            start <= i <= n,
            split_spaces(s@.subrange(0, i as int)) == done.push(s@.subrange(start as int, i as int)),
            out@ == emitted(done),
        decreases n - i,
    {
        let c = s.get_char(i);
        proof {
            assert(s@.subrange(0, i + 1).drop_last() =~= s@.subrange(0, i as int));
            assert(s@.subrange(0, i + 1).last() == c);
        }
        if c == ' ' {
            let piece = s.substring_char(start, i);
            let changed = match regex_replace_first(COIN_PATTERN, piece, TONYS_ADDRESS) {
                Some(r) => r,
                None => piece.to_string(),
            };
            out.append(changed.as_str());
            out.append(" ");
            proof {
                let old_done = done;
                done = done.push(s@.subrange(start as int, i as int));
                assert(done.drop_last() =~= old_done);
                assert(s@.subrange(i + 1, i + 1) =~= Seq::<char>::empty());
            }
            start = i + 1;
        } else {
            proof {
                assert(s@.subrange(start as int, i + 1) =~= s@.subrange(start as int, i as int).push(c));
                assert(done.push(s@.subrange(start as int, i as int)).update(done.len() as int, s@.subrange(start as int, i + 1))
                    =~= done.push(s@.subrange(start as int, i + 1)));
            }
        }
        i += 1;
    }
    let piece = s.substring_char(start, n);
    let changed = match regex_replace_first(COIN_PATTERN, piece, TONYS_ADDRESS) {
        Some(r) => r,
        None => piece.to_string(),
    };
    out.append(changed.as_str());
    proof {
        assert(s@.subrange(0, n as int) =~= s@);
        lemma_emitted_then_last(done, s@.subrange(start as int, n as int));
    }
    out
}

} // verus!
