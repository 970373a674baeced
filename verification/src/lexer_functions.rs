//! Pieces of the query lexer that work on plain text.

use vstd::prelude::*;
use vstd::std_specs::iter::IteratorSpec;
use vstd::string::*;

verus! {

/// How many characters of `rest` a comment takes in that follows a text ending
/// in `last`: up to and with the first `/` that stands behind a `*`, or all of
/// them where there is none.
pub open spec fn comment_len(last: char, rest: Seq<char>) -> nat
    decreases rest.len(),
{
    if rest.len() == 0 {
        0
    } else if last == '*' && rest[0] == '/' {
        1
    } else {
        1 + comment_len(rest[0], rest.drop_first())
    }
}

/// `String::push` of std: appends one character to the string.
#[verifier::external_body]
fn push_char(text: &mut String, c: char)
    ensures
        final(text)@ == old(text)@.push(c),
{
    text.push(c)
}

/// Where `dough` begins with `/`, takes characters from `itr` into `dough`
/// until `dough` ends with `*/` or `itr` is used up, so that a comment is
/// passed over as one piece. Never reports a token.
pub fn lexer_ignore_comments_match<T: Iterator<Item = char>>(dough: &mut String, itr: &mut T) -> (matched:
    bool)
    requires
        (*old(itr)).obeys_prophetic_iter_laws(),
        (*old(itr)).decrease() is Some,
    ensures
        !matched,
        (*final(itr)).obeys_prophetic_iter_laws(),
        old(dough)@.len() > 0 && old(dough)@[0] == '/' ==> {
            let taken = comment_len(old(dough)@.last(), (*old(itr)).remaining());
            &&& taken <= (*old(itr)).remaining().len()
            &&& final(dough)@ == old(dough)@ + (*old(itr)).remaining().take(taken as int)
            &&& (*final(itr)).remaining() == (*old(itr)).remaining().skip(taken as int)
        },
        !(old(dough)@.len() > 0 && old(dough)@[0] == '/') ==> final(dough)@ == old(dough)@
            && (*final(itr)).remaining() == (*old(itr)).remaining(),
{
    let len = dough.as_str().unicode_len();
    if len > 0 && dough.as_str().get_char(0) == '/' {
        let mut last: char = dough.as_str().get_char(len - 1);
        let ghost all = (*itr).remaining();
        let ghost mut taken: nat = 0;
        proof {
            assert(all.skip(0) =~= all);
            assert(all.take(0) =~= Seq::<char>::empty());
            assert(dough@ =~= old(dough)@ + all.take(0));
        }
        loop
            invariant_except_break
                last == dough@.last(),
                comment_len(old(dough)@.last(), all) == taken + comment_len(
                    last,
                    all.skip(taken as int),
                ),
            invariant
                (*itr).obeys_prophetic_iter_laws(),
                (*itr).decrease() is Some,
                taken <= all.len(),
                dough@ == old(dough)@ + all.take(taken as int),
                (*itr).remaining() == all.skip(taken as int),
                old(dough)@.len() > 0,
            ensures
                taken <= all.len(),
                dough@ == old(dough)@ + all.take(taken as int),
                (*itr).remaining() == all.skip(taken as int),
                (*itr).obeys_prophetic_iter_laws(),
                comment_len(old(dough)@.last(), all) == taken,
            decreases (*itr).decrease()->0,
        {
            let ghost rest = all.skip(taken as int);
            match itr.next() {
                Some(c) => {
                    push_char(dough, c);
                    proof {
                        assert(rest.drop_first() =~= all.skip(taken as int + 1));
                        assert(all.take(taken as int + 1) =~= all.take(taken as int).push(c));
                        assert(dough@ =~= old(dough)@ + all.take(taken as int + 1));
                        taken = taken + 1;
                    }
                    if last == '*' && c == '/' {
                        break ;
                    }
                    last = c;
                },
                None => {
                    break ;
                },
            }
        }
    } else {
        assert(old(dough)@.len() > 0 ==> old(dough)@[0] != '/');
    }
    false
}

/// Cuts `b` to `max_len` bytes, or fills it up to `max_len` bytes with zeros.
pub fn truncate_or_pad_bytes(b: Vec<u8>, max_len: usize) -> (bytes: Vec<u8>)
    ensures
        bytes@.len() == max_len,
        forall|i: int|
            0 <= i < max_len ==> bytes@[i] == if i < b@.len() {
                b@[i]
            } else {
                0u8
            },
{
    let mut bytes = b;
    if bytes.len() > max_len {
        bytes.truncate(max_len);
    } else {
        while bytes.len() < max_len
            invariant
                b@.len() <= bytes@.len() <= max_len,
                forall|i: int|
                    0 <= i < bytes@.len() ==> bytes@[i] == if i < b@.len() {
                        b@[i]
                    } else {
                        0u8
                    },
            decreases max_len - bytes.len(),
        {
            bytes.push(0);
        }
    }
    bytes
}

} // verus!
