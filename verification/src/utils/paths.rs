//! `/`-joined paths and their components.
use crate::utils::text::chars_of;
use vstd::prelude::*;
use vstd::string::*;

verus! {

/// Where the first `/` of `s` stands; the length of `s` if there is none.
pub open spec fn first_slash(s: Seq<char>) -> nat
    decreases s.len(),
{
    if s.len() == 0 || s[0] == '/' {
        0
    } else {
        1 + first_slash(s.drop_first())
    }
}

/// The non-empty pieces of `s` between slashes.
pub open spec fn components(s: Seq<char>) -> Seq<Seq<char>>
    decreases s.len(),
{
    let i = first_slash(s) as int;
    let head = if i == 0 {
        Seq::empty()
    } else {
        seq![s.subrange(0, i)]
    };
    if i >= s.len() {
        head
    } else {
        head + components(s.subrange(i + 1, s.len() as int))
    }
}

/// `parts` with a `/` between each two.
pub open spec fn joined(parts: Seq<Seq<char>>) -> Seq<char>
    decreases parts.len(),
{
    if parts.len() == 0 {
        Seq::empty()
    } else if parts.len() == 1 {
        parts[0]
    } else {
        joined(parts.drop_last()) + seq!['/'] + parts.last()
    }
}

/// What `strings` hold.
pub open spec fn texts(strings: Seq<String>) -> Seq<Seq<char>> {
    strings.map_values(|s: String| s@)
}

/// A component: not empty and without a slash.
pub open spec fn is_component(s: Seq<char>) -> bool {
    s.len() > 0 && !s.contains('/')
}

proof fn lemma_first_slash(s: Seq<char>, i: int)
    requires
        0 <= i <= s.len(),
        forall|j: int| 0 <= j < i ==> s[j] != '/',
        i < s.len() ==> s[i] == '/',
    ensures
        first_slash(s) == i,
    decreases s.len(),
{
    if i > 0 {
        lemma_first_slash(s.drop_first(), i - 1);
    }
}

pub proof fn lemma_first_slash_bound(s: Seq<char>)
    ensures
        first_slash(s) <= s.len(),
        forall|j: int| 0 <= j < first_slash(s) ==> s[j] != '/',
        first_slash(s) < s.len() ==> s[first_slash(s) as int] == '/',
    decreases s.len(),
{
    if s.len() > 0 && s[0] != '/' {
        lemma_first_slash_bound(s.drop_first());
        let t = s.drop_first();
        assert forall|j: int| 0 <= j < first_slash(s) implies s[j] != '/' by {
            if j > 0 {
                assert(s[j] == t[j - 1]);
            }
        }
    }
}

/// Every piece is a component.
pub proof fn lemma_components_are(s: Seq<char>)
    ensures
        forall|k: int| 0 <= k < components(s).len() ==> is_component(#[trigger] components(s)[k]),
    decreases s.len(),
{
    lemma_first_slash_bound(s);
    let i = first_slash(s) as int;
    let tail = if i < s.len() {
        components(s.subrange(i + 1, s.len() as int))
    } else {
        Seq::empty()
    };
    if i < s.len() {
        lemma_components_are(s.subrange(i + 1, s.len() as int));
    }
    assert forall|k: int| 0 <= k < components(s).len() implies is_component(
        #[trigger] components(s)[k],
    ) by {
        if i == 0 {
            assert(components(s) =~= tail);
        } else {
            assert(components(s) =~= seq![s.subrange(0, i)] + tail);
            if k == 0 {
                assert(forall|j: int| 0 <= j < i ==> s.subrange(0, i)[j] == s[j]);
            } else {
                assert(components(s)[k] == tail[k - 1]);
            }
        }
    }
}

proof fn lemma_components_append(s: Seq<char>, part: Seq<char>)
    requires
        is_component(part),
    ensures
        components(s + seq!['/'] + part) == components(s).push(part),
    decreases s.len(),
{
    let w = s + seq!['/'] + part;
    lemma_first_slash_bound(s);
    let i = first_slash(s) as int;
    if i == s.len() {
        assert(forall|j: int| 0 <= j < i ==> w[j] == s[j]);
        lemma_first_slash(w, i);
        assert(w.subrange(i + 1, w.len() as int) =~= part);
        assert(w.subrange(0, i) =~= s.subrange(0, i));
        lemma_first_slash(part, part.len() as int);
        assert(part.subrange(0, part.len() as int) =~= part);
        assert(components(part) =~= seq![part]);
        assert(components(w) =~= components(s).push(part));
    } else {
        assert(forall|j: int| 0 <= j <= i ==> w[j] == s[j]);
        lemma_first_slash(w, i);
        let rest = s.subrange(i + 1, s.len() as int);
        assert(w.subrange(i + 1, w.len() as int) =~= rest + seq!['/'] + part);
        assert(w.subrange(0, i) =~= s.subrange(0, i));
        lemma_components_append(rest, part);
        assert(components(w.subrange(i + 1, w.len() as int)) == components(rest).push(part));
        assert(components(w) =~= components(s).push(part));
    }
}

/// Splitting a joined path gives its components back.
pub proof fn joined_splits(parts: Seq<Seq<char>>)
    requires
        forall|k: int| 0 <= k < parts.len() ==> is_component(#[trigger] parts[k]),
    ensures
        components(joined(parts)) == parts,
    decreases parts.len(),
{
    if parts.len() == 0 {
        lemma_first_slash(joined(parts), 0);
        assert(components(joined(parts)) =~= parts);
    } else if parts.len() == 1 {
        let p = parts[0];
        lemma_first_slash(p, p.len() as int);
        assert(p.subrange(0, p.len() as int) =~= p);
        assert(components(p) =~= parts);
    } else {
        joined_splits(parts.drop_last());
        assert(is_component(parts.last()));
        lemma_components_append(joined(parts.drop_last()), parts.last());
        assert(parts.drop_last().push(parts.last()) =~= parts);
    }
}

/// Putting a component in front of a joined path.
pub proof fn lemma_joined_front(part: Seq<char>, parts: Seq<Seq<char>>)
    requires
        parts.len() > 0,
    ensures
        joined(seq![part] + parts) == part + seq!['/'] + joined(parts),
    decreases parts.len(),
{
    let all = seq![part] + parts;
    if parts.len() == 1 {
        assert(all.drop_last() =~= seq![part]);
        assert(joined(all) =~= part + seq!['/'] + joined(parts));
    } else {
        lemma_joined_front(part, parts.drop_last());
        assert(all.drop_last() =~= seq![part] + parts.drop_last());
        assert(all.last() == parts.last());
        assert(joined(all) == joined(all.drop_last()) + seq!['/'] + all.last());
        assert(joined(parts) == joined(parts.drop_last()) + seq!['/'] + parts.last());
        assert(joined(all) =~= part + seq!['/'] + joined(parts));
    }
}

/// The components of `path`.
pub fn split_path(path: &str) -> (r: Vec<String>)
    ensures
        texts(r@) == components(path@),
{
    let ghost s = path@;
    let chars = chars_of(path);
    let n: usize = chars.len();
    let mut r: Vec<String> = Vec::new();
    let mut start: usize = 0;
    let mut i: usize = 0;
    assert(s.subrange(0, n as int) =~= s);
    assert(texts(r@) + components(s) =~= components(s));
    while i < n
        invariant
            s == path@,
            chars@ == s,
            start <= i <= n == s.len(),
            forall|j: int| start <= j < i ==> s[j] != '/',
            components(s) == texts(r@) + components(s.subrange(start as int, n as int)),
        decreases n - i,
    {
        if chars[i] == '/' {
            let ghost rest = s.subrange(start as int, n as int);
            let ghost tail = components(s.subrange(i + 1, n as int));
            proof {
                lemma_first_slash(rest, i - start);
                assert(rest.subrange(i - start + 1, rest.len() as int) =~= s.subrange(
                    i + 1,
                    n as int,
                ));
                assert(rest.subrange(0, i - start) =~= s.subrange(start as int, i as int));
                assert(components(rest) == (if start == i {
                    Seq::empty()
                } else {
                    seq![s.subrange(start as int, i as int)]
                }) + tail);
            }
            let ghost before = texts(r@);
            if start < i {
                r.push(path.substring_char(start, i).to_owned());
                assert(texts(r@) =~= before.push(s.subrange(start as int, i as int)));
                assert(before + (seq![s.subrange(start as int, i as int)] + tail) =~= texts(r@)
                    + tail);
            } else {
                assert(Seq::<Seq<char>>::empty() + tail =~= tail);
            }
            start = i + 1;
        }
        i = i + 1;
    }
    proof {
        let rest = s.subrange(start as int, n as int);
        lemma_first_slash(rest, rest.len() as int);
        assert(rest.subrange(0, rest.len() as int) =~= rest);
    }
    let ghost before = texts(r@);
    if start < n {
        r.push(path.substring_char(start, n).to_owned());
        assert(texts(r@) =~= before + seq![s.subrange(start as int, n as int)]);
    } else {
        assert(texts(r@) =~= before + Seq::<Seq<char>>::empty());
    }
    r
}

/// Joins `name` under `prefix`, which is empty for the root.
pub fn join_path(prefix: &str, name: &str) -> (r: String)
    ensures
        r@ == (if prefix@.len() == 0 {
            name@
        } else {
            prefix@ + seq!['/'] + name@
        }),
{
    if prefix.is_empty() {
        name.to_owned()
    } else {
        let mut r = prefix.to_owned();
        r.push('/');
        r.append(name);
        assert(r@ =~= prefix@ + seq!['/'] + name@);
        r
    }
}

/// Whether two strings hold the same characters.
pub fn same_text(a: &str, b: &str) -> (r: bool)
    ensures
        r == (a@ == b@),
{
    let x = chars_of(a);
    let y = chars_of(b);
    if x.len() != y.len() {
        return false;
    }
    let mut i: usize = 0;
    while i < x.len()
        invariant
            i <= x@.len(),
            x@ == a@,
            y@ == b@,
            x@.len() == y@.len(),
            forall|j: int| 0 <= j < i ==> x@[j] == y@[j],
        decreases x@.len() - i,
    {
        if x[i] != y[i] {
            return false;
        }
        i = i + 1;
    }
    assert(a@ =~= b@);
    true
}

/// A path is cut at each slash, and empty pieces are dropped: what stands on both sides of a slash
/// is split by itself, and what holds no slash is one component, or none if it is empty.
pub proof fn paths_are_cut_at_slashes(a: Seq<char>, b: Seq<char>)
    ensures
        components(a + seq!['/'] + b) == components(a) + components(b),
        !a.contains('/') && a.len() > 0 ==> components(a) == seq![a],
        components(Seq::empty()).len() == 0,
    decreases a.len(),
{
    let w = a + seq!['/'] + b;
    lemma_first_slash(Seq::empty(), 0);
    lemma_first_slash_bound(a);
    let i = first_slash(a) as int;
    if !a.contains('/') && a.len() > 0 {
        assert(i == a.len());
        assert(a.subrange(0, i) =~= a);
        assert(components(a) =~= seq![a]);
    }
    assert(forall|j: int| 0 <= j < i ==> w[j] == a[j]);
    lemma_first_slash(w, i);
    assert(w.subrange(0, i) =~= a.subrange(0, i));
    if i == a.len() {
        assert(w.subrange(i + 1, w.len() as int) =~= b);
        assert(components(w) =~= components(a) + components(b));
    } else {
        let rest = a.subrange(i + 1, a.len() as int);
        assert(w.subrange(i + 1, w.len() as int) =~= rest + seq!['/'] + b);
        paths_are_cut_at_slashes(rest, b);
        assert(components(w) =~= components(a) + components(b));
    }
}

/// Paths are put together with one slash: nothing stands for no parts, and one part for itself.
pub proof fn parts_are_put_together_with_a_slash(a: Seq<Seq<char>>, b: Seq<Seq<char>>)
    ensures
        joined(Seq::empty()).len() == 0,
        a.len() == 1 ==> joined(a) == a[0],
        a.len() > 0 && b.len() > 0 ==> joined(a + b) == joined(a) + seq!['/'] + joined(b),
    decreases b.len(),
{
    if a.len() > 0 && b.len() > 0 {
        assert((a + b).drop_last() =~= a + b.drop_last());
        assert((a + b).last() == b.last());
        if b.len() == 1 {
            assert(a + b.drop_last() =~= a);
            assert(joined(b) == b[0]);
        } else {
            parts_are_put_together_with_a_slash(a, b.drop_last());
            assert(joined(a + b) == joined(a + b.drop_last()) + seq!['/'] + b.last());
            assert(joined(a + b) =~= joined(a) + seq!['/'] + joined(b));
        }
    }
}

} // verus!
