//! Which names may stand as one segment of a `/`-joined path.
use crate::utils::text::chars_of;
use vstd::prelude::*;

verus! {

/// A character that would split or cut a path.
pub open spec fn is_separator(c: char) -> bool {
    c == '/' || c == '\\' || c == '\0'
}

/// A name that is safe as a single segment of a `/`-joined path: not empty, not `.` or `..`,
/// and free of separators and NUL.
pub open spec fn safe_component(name: Seq<char>) -> bool {
    &&& name.len() > 0
    &&& name != seq!['.']
    &&& name != seq!['.', '.']
    &&& forall|i: int| 0 <= i < name.len() ==> !is_separator(#[trigger] name[i])
}

/// True if `component` is safe to use as a single segment of a `/`-joined path.
pub fn is_safe_path_component(component: &str) -> (r: bool)
    ensures
        r == safe_component(component@),
{
    let chars = chars_of(component);
    if chars.len() == 0 {
        return false;
    }
    if chars.len() == 1 && chars[0] == '.' {
        assert(component@ =~= seq!['.']);
        return false;
    }
    if chars.len() == 2 && chars[0] == '.' && chars[1] == '.' {
        assert(component@ =~= seq!['.', '.']);
        return false;
    }
    let mut i: usize = 0;
    while i < chars.len()
        invariant
            i <= chars@.len(),
            chars@ == component@,
            forall|j: int| 0 <= j < i ==> !is_separator(#[trigger] component@[j]),
        decreases chars@.len() - i,
    {
        let c = chars[i];
        if c == '/' || c == '\\' || c == '\0' {
            assert(is_separator(component@[i as int]));
            return false;
        }
        i = i + 1;
    }
    proof {
        let s = component@;
        if s == seq!['.'] {
            assert(s[0] == '.');
        }
        if s == seq!['.', '.'] {
            assert(s[0] == '.' && s[1] == '.');
        }
    }
    true
}

/// A name is refused as a segment if it is empty, if it stands for a directory above or for the
/// directory itself, or if it holds a slash of either kind or a NUL; every other is taken.
pub proof fn unsafe_names_are_refused(name: Seq<char>)
    ensures
        !safe_component(name) <==> name.len() == 0 || name == "."@ || name == ".."@
            || name.contains('/') || name.contains('\\') || name.contains('\0'),
{
    reveal_strlit(".");
    reveal_strlit("..");
    assert("."@ =~= seq!['.']);
    assert(".."@ =~= seq!['.', '.']);
    if name.contains('/') || name.contains('\\') || name.contains('\0') {
        let i = choose|i: int|
            0 <= i < name.len() && (name[i] == '/' || name[i] == '\\' || name[i] == '\0');
        assert(is_separator(name[i]));
    }
    if exists|i: int| 0 <= i < name.len() && is_separator(#[trigger] name[i]) {
        let i = choose|i: int| 0 <= i < name.len() && is_separator(#[trigger] name[i]);
        assert(name.contains(name[i]));
    }
}

} // verus!
