//! Drawing one of several moves.
use vstd::prelude::*;

verus! {

/// `rand::random::<usize>()`, a draw from the thread's generator. Nothing is
/// promised of the number: a caller is verified for every value. The call
/// fails only where the operating system cannot seed the generator.
#[verifier::external_body]
pub(crate) fn random_usize() -> usize {
    rand::random::<usize>()
}

/// The place that a drawn number selects among `len` choices.
pub open spec fn place(len: int, draw: int) -> int {
    if len == 1 {
        0
    } else {
        draw % len
    }
}

/// The place that `draw` selects among `len` choices. A single choice is
/// selected whatever was drawn.
pub fn index_for(len: usize, draw: usize) -> (index: usize)
    requires
        len > 0,
    ensures
        index == place(len as int, draw as int),
        index < len,
{
    if len == 1 {
        0
    } else {
        draw % len
    }
}

/// Picks one of `len` choices with a number from `draw`. A single choice is
/// taken as it is and `draw` is not called, nor need it be callable;
/// otherwise `draw` is called once and `index_for` says which place its
/// number selects.
pub fn choose_index_with<D: FnOnce() -> usize>(len: usize, draw: D) -> (index: usize)
    requires
        len > 0,
        len > 1 ==> call_requires(draw, ()),
    ensures
        index < len,
        len == 1 ==> index == 0,
        len > 1 ==> exists|drawn: usize| #[trigger]
            call_ensures(draw, (), drawn) && index == place(len as int, drawn as int),
{
    if len == 1 {
        0
    } else {
        index_for(len, draw())
    }
}

/// Picks one of `len` choices: a single one as it is, else the place that
/// a number drawn from the thread's generator selects, as `place` says.
pub fn choose_index(len: usize) -> (index: usize)
    requires
        len > 0,
    ensures
        index < len,
        len == 1 ==> index == 0,
        len > 1 ==> exists|number: usize| #[trigger]
            drawn(number) && index == place(len as int, number as int),
{
    let index = choose_index_with(len, random_usize);
    proof {
        if len > 1 {
            let number = choose|number: usize| #[trigger]
                call_ensures(random_usize, (), number) && index == place(
                    len as int,
                    number as int,
                );
            assert(drawn(number));
        }
    }
    index
}

/// `number` is what the thread's generator returned on a draw.
pub closed spec fn drawn(number: usize) -> bool {
    call_ensures(random_usize, (), number)
}

} // verus!
