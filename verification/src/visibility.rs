use vstd::prelude::*;
use vstd::std_specs::convert::FromSpecImpl;

use crate::text::chars_of;

verus! {

/// Who may see a note.
#[derive(PartialEq, Eq, Structural, Clone, Copy, Debug)]
pub enum Visibility {
    Public,
    Home,
    Followers,
    Specified,
}

/// The visibility that the server's name for it stands for: `public`,
/// `home` and `followers` name their own; any other name means a note for
/// specified users.
pub open spec fn visibility_named(name: Seq<char>) -> Visibility {
    if name == seq!['p', 'u', 'b', 'l', 'i', 'c'] {
        Visibility::Public
    } else if name == seq!['h', 'o', 'm', 'e'] {
        Visibility::Home
    } else if name == seq!['f', 'o', 'l', 'l', 'o', 'w', 'e', 'r', 's'] {
        Visibility::Followers
    } else {
        Visibility::Specified
    }
}

fn chars_equal(a: &[char], b: &[char]) -> (r: bool)
    ensures
        r == (a@ == b@),
{
    if a.len() != b.len() {
        return false;
    }
    let mut i: usize = 0;
    while i < a.len()
        invariant
            a@.len() == b@.len(),
            i <= a@.len(),
            forall|j: int| 0 <= j < i ==> a@[j] == b@[j],
        decreases a@.len() - i,
    {
        if a[i] != b[i] {
            return false;
        }
        i = i + 1;
    }
    assert(a@ =~= b@);
    true
}

impl<'a> From<&'a str> for Visibility {
    fn from(value: &'a str) -> (v: Self)
        ensures
            v == visibility_named(value@),
    {
        let c = chars_of(value);
        let public: [char; 6] = ['p', 'u', 'b', 'l', 'i', 'c'];
        let home: [char; 4] = ['h', 'o', 'm', 'e'];
        let followers: [char; 9] = ['f', 'o', 'l', 'l', 'o', 'w', 'e', 'r', 's'];
        proof {
            assert(public@ =~= seq!['p', 'u', 'b', 'l', 'i', 'c']);
            assert(home@ =~= seq!['h', 'o', 'm', 'e']);
            assert(followers@ =~= seq!['f', 'o', 'l', 'l', 'o', 'w', 'e', 'r', 's']);
        }
        if chars_equal(c.as_slice(), public.as_slice()) {
            Visibility::Public
        } else if chars_equal(c.as_slice(), home.as_slice()) {
            Visibility::Home
        } else if chars_equal(c.as_slice(), followers.as_slice()) {
            Visibility::Followers
        } else {
            Visibility::Specified
        }
    }
}

impl<'a> FromSpecImpl<&'a str> for Visibility {
    open spec fn obeys_from_spec() -> bool {
        true
    }

    open spec fn from_spec(v: &'a str) -> Visibility {
        visibility_named(v@)
    }
}

} // verus!
