use vstd::prelude::*;

verus! {

/// A text that repeats one character.
pub open spec fn repeated(c: char, count: nat) -> Seq<char> {
    Seq::new(count, |i: int| c)
}

/// `String::push`: the character is appended to the text.
#[verifier::external_body]
pub(crate) fn push_char(text: &mut String, c: char)
    ensures
        final(text)@ == old(text)@.push(c),
{
    text.push(c);
}

/// Appends a character `count` times.
pub fn push_repeated(text: &mut String, c: char, count: usize)
    ensures
        final(text)@ == old(text)@ + repeated(c, count as nat),
{
    let mut i: usize = 0;
    while i < count
        invariant
            i <= count,
            text@ == old(text)@ + repeated(c, i as nat),
        decreases count - i,
    {
        push_char(text, c);
        proof {
            assert(text@ =~= old(text)@ + repeated(c, (i + 1) as nat));
        }
        i += 1;
    }
    proof {
        assert(repeated(c, 0) =~= Seq::<char>::empty());
    }
}

} // verus!
