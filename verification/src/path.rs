//! Path strings: composition, final component, parent and components, with
//! the meaning that `std::path` gives them on Unix.
use vstd::prelude::*;
use crate::strs::push_char;

verus! {

/// The views of a sequence of strings.
pub open spec fn views(v: Seq<String>) -> Seq<Seq<char>> {
    v.map_values(|s: String| s@)
}

/// A component that names something: neither empty nor `.`.
pub open spec fn is_normal(c: Seq<char>) -> bool {
    c.len() > 0 && c != seq!['.']
}

/// One step of scanning a path from the left: the components finished so
/// far and the segment being read.
pub open spec fn scan_step(st: (Seq<Seq<char>>, Seq<char>), c: char) -> (Seq<Seq<char>>, Seq<char>) {
    if c == '/' {
        (flush(st), Seq::empty())
    } else {
        (st.0, st.1.push(c))
    }
}

/// The finished components with the segment being read added if it names
/// something.
pub open spec fn flush(st: (Seq<Seq<char>>, Seq<char>)) -> Seq<Seq<char>> {
    if is_normal(st.1) {
        st.0.push(st.1)
    } else {
        st.0
    }
}

/// Scanning `p` from a given state.
pub open spec fn scan_from(st: (Seq<Seq<char>>, Seq<char>), p: Seq<char>) -> (Seq<Seq<char>>, Seq<char>)
    decreases p.len(),
{
    if p.len() == 0 {
        st
    } else {
        scan_step(scan_from(st, p.drop_last()), p.last())
    }
}

/// Scanning a path from the start.
pub open spec fn scan(p: Seq<char>) -> (Seq<Seq<char>>, Seq<char>) {
    scan_from((Seq::empty(), Seq::empty()), p)
}

/// The components of a path: its `/`-separated segments that are neither
/// empty nor `.` (a `..` is kept).
pub open spec fn comps(p: Seq<char>) -> Seq<Seq<char>> {
    flush(scan(p))
}

pub proof fn lemma_scan_from_append(st: (Seq<Seq<char>>, Seq<char>), a: Seq<char>, b: Seq<char>)
    ensures
        scan_from(st, a + b) == scan_from(scan_from(st, a), b),
    decreases b.len(),
{
    if b.len() == 0 {
        assert(a + b =~= a);
    } else {
        assert((a + b).drop_last() =~= a + b.drop_last());
        assert((a + b).last() == b.last());
        lemma_scan_from_append(st, a, b.drop_last());
    }
}

pub proof fn lemma_scan_from_fresh(acc: Seq<Seq<char>>, b: Seq<char>)
    ensures
        scan_from((acc, Seq::empty()), b) == (acc + scan(b).0, scan(b).1),
    decreases b.len(),
{
    if b.len() == 0 {
        assert(acc + Seq::<Seq<char>>::empty() =~= acc);
    } else {
        lemma_scan_from_fresh(acc, b.drop_last());
        let st0 = scan(b.drop_last());
        if b.last() == '/' {
            if is_normal(st0.1) {
                assert(acc + st0.0.push(st0.1) =~= (acc + st0.0).push(st0.1));
            }
        }
    }
}

/// The components of a path joined to another are those of the first
/// followed by those of the second.
pub proof fn lemma_comps_compose(a: Seq<char>, b: Seq<char>)
    requires
        !is_abs(b),
    ensures
        comps(spec_path_compose(a, b)) == comps(a) + comps(b),
        is_abs(spec_path_compose(a, b)) == is_abs(a),
        a.len() == 0 ==> spec_path_compose(a, b) == b,
{
    let e = (Seq::<Seq<char>>::empty(), Seq::<char>::empty());
    if a.len() > 0 && a.last() != '/' {
        let ab = a + seq!['/'];
        lemma_scan_from_append(e, ab, b);
        lemma_scan_from_append(e, a, seq!['/']);
        assert(seq!['/'].drop_last() =~= Seq::<char>::empty());
        lemma_scan_from_fresh(comps(a), b);
        assert(scan_from(e, seq!['/']) == scan_step(scan_from(e, seq!['/'].drop_last()), '/'));
        assert(scan_from(scan(a), seq!['/']) == scan_step(scan_from(scan(a), seq!['/'].drop_last()), '/'));
        assert(scan(ab) == (comps(a), Seq::<char>::empty()));
        assert(comps(a) + flush(scan(b)) =~= flush((comps(a) + scan(b).0, scan(b).1)));
        assert(spec_path_compose(a, b) =~= ab + b);
        assert(scan(spec_path_compose(a, b)) == scan_from(scan(ab), b));
        assert((a + seq!['/'] + b)[0] == a[0]);
    } else if a.len() > 0 {
        lemma_scan_from_append(e, a, b);
        assert(a =~= a.drop_last().push('/'));
        assert(scan(a) == scan_step(scan(a.drop_last()), '/'));
        assert(scan(a).1 == Seq::<char>::empty());
        assert(scan(a).0 == comps(a));
        assert(spec_path_compose(a, b) =~= a + b);
        lemma_scan_from_fresh(comps(a), b);
        assert(comps(a) + flush(scan(b)) =~= flush((comps(a) + scan(b).0, scan(b).1)));
        assert((a + b)[0] == a[0]);
    } else {
        assert(a + b =~= b);
        assert(comps(a) =~= Seq::<Seq<char>>::empty());
        assert(comps(a) + comps(b) =~= comps(b));
    }
}

/// Whether a path is absolute.
pub open spec fn is_abs(p: Seq<char>) -> bool {
    p.len() > 0 && p[0] == '/'
}

/// The final component of a path (`Path::file_name`): the last component,
/// unless there is none or it is `..`.
pub open spec fn spec_get_name(p: Seq<char>) -> Option<Seq<char>> {
    let c = comps(p);
    if c.len() == 0 || c.last() == seq!['.', '.'] {
        None
    } else {
        Some(c.last())
    }
}

/// `PathBuf::push` of `p2` onto `p1`.
pub open spec fn spec_path_compose(p1: Seq<char>, p2: Seq<char>) -> Seq<char> {
    if is_abs(p2) {
        p2
    } else if p1.len() > 0 && p1.last() != '/' {
        p1 + seq!['/'] + p2
    } else {
        p1 + p2
    }
}

/// Trailing separators and trailing `.` segments removed, down to one
/// character.
pub open spec fn trim_back(s: Seq<char>) -> Seq<char>
    decreases s.len(),
{
    if s.len() >= 2 && s.last() == '/' {
        trim_back(s.drop_last())
    } else if s.len() >= 2 && s.last() == '.' && s[s.len() - 2] == '/' {
        trim_back(s.drop_last())
    } else {
        s
    }
}

/// The index of the last `/`, or -1.
pub open spec fn last_slash(s: Seq<char>) -> int
    decreases s.len(),
{
    if s.len() == 0 {
        -1
    } else if s.last() == '/' {
        s.len() - 1
    } else {
        last_slash(s.drop_last())
    }
}

/// Whether `PathBuf::pop` removes something: the path has a last component
/// that is a name, `..`, or a leading `.`.
pub open spec fn has_parent(p: Seq<char>) -> bool {
    comps(p).len() > 0 || trim_back(p) == seq!['.']
}

/// What `PathBuf::pop` leaves of a path that has a parent.
pub open spec fn parent_str(p: Seq<char>) -> Seq<char> {
    let t = trim_back(p);
    if t == seq!['.'] {
        Seq::empty()
    } else {
        let j = last_slash(t);
        if j < 0 {
            Seq::empty()
        } else {
            trim_back(t.subrange(0, j + 1))
        }
    }
}

/// The path after `PathBuf::pop`.
pub open spec fn spec_get_parent_name(p: Seq<char>) -> Seq<char> {
    if has_parent(p) {
        parent_str(p)
    } else {
        p
    }
}

pub proof fn lemma_trim_back_prefix(s: Seq<char>)
    ensures
        trim_back(s).len() <= s.len(),
        trim_back(s) =~= s.subrange(0, trim_back(s).len() as int),
    decreases s.len(),
{
    if s.len() >= 2 && s.last() == '/' {
        lemma_trim_back_prefix(s.drop_last());
    } else if s.len() >= 2 && s.last() == '.' && s[s.len() - 2] == '/' {
        lemma_trim_back_prefix(s.drop_last());
    }
}

pub proof fn lemma_last_slash(s: Seq<char>)
    ensures
        -1 <= last_slash(s) < s.len(),
        last_slash(s) >= 0 ==> s[last_slash(s)] == '/',
        forall|k: int| last_slash(s) < k < s.len() ==> s[k] != '/',
    decreases s.len(),
{
    if s.len() > 0 && s.last() != '/' {
        lemma_last_slash(s.drop_last());
        assert forall|k: int| last_slash(s) < k < s.len() implies s[k] != '/' by {
            if k < s.len() - 1 {
                assert(s[k] == s.drop_last()[k]);
            }
        }
    }
}

/// Every component is a name or `..`, and holds no separator.
pub proof fn lemma_comps_normal(p: Seq<char>)
    ensures
        forall|i: int| 0 <= i < comps(p).len() ==> is_normal(#[trigger] comps(p)[i]),
        forall|i: int| 0 <= i < comps(p).len() ==> !(#[trigger] comps(p)[i]).contains('/'),
{
    lemma_scan_normal(p);
}

proof fn lemma_scan_normal(p: Seq<char>)
    ensures
        forall|i: int| 0 <= i < comps(p).len() ==> is_normal(#[trigger] comps(p)[i]),
        forall|i: int| 0 <= i < comps(p).len() ==> !(#[trigger] comps(p)[i]).contains('/'),
        forall|i: int| 0 <= i < scan(p).0.len() ==> is_normal(#[trigger] scan(p).0[i]),
        forall|i: int| 0 <= i < scan(p).0.len() ==> !(#[trigger] scan(p).0[i]).contains('/'),
        !scan(p).1.contains('/'),
    decreases p.len(),
{
    if p.len() > 0 {
        lemma_scan_normal(p.drop_last());
        let st = scan(p.drop_last());
        assert(scan(p) == scan_step(st, p.last()));
        if p.last() != '/' {
            assert forall|k: int| 0 <= k < st.1.push(p.last()).len() implies st.1.push(
                p.last(),
            )[k] != '/' by {
                if k < st.1.len() {
                    assert(st.1[k] != '/') by {
                        if st.1[k] == '/' {
                            assert(st.1.contains('/'));
                        }
                    }
                }
            }
        }
    }
}

/// The components of a path (`Path::components` without the root and the
/// leading `.`).
pub fn components(p: &str) -> (r: Vec<String>)
    ensures
        views(r@) == comps(p@),
{
    let n = p.unicode_len();
    let mut acc: Vec<String> = Vec::new();
    let mut cur = String::new();
    let mut i: usize = 0;
    while i < n
        invariant
            n == p@.len(),
            i <= n,
            views(acc@) == scan(p@.subrange(0, i as int)).0,
            cur@ == scan(p@.subrange(0, i as int)).1,
        decreases n - i,
    {
        let c = p.get_char(i);
        proof {
            assert(p@.subrange(0, i + 1).drop_last() =~= p@.subrange(0, i as int));
            assert(p@.subrange(0, i + 1).last() == c);
        }
        if c == '/' {
            if is_normal_str(&cur) {
                acc.push(cur);
                proof {
                    assert(views(acc@) =~= scan(p@.subrange(0, i as int)).0.push(
                        scan(p@.subrange(0, i as int)).1,
                    ));
                }
            }
            cur = String::new();
        } else {
            push_char(&mut cur, c);
        }
        i = i + 1;
    }
    proof {
        assert(p@.subrange(0, n as int) =~= p@);
    }
    if is_normal_str(&cur) {
        acc.push(cur);
        proof {
            assert(views(acc@) =~= scan(p@).0.push(scan(p@).1));
        }
    }
    acc
}

/// Whether a segment is a name or `..`.
pub fn is_normal_str(c: &str) -> (r: bool)
    ensures
        r == is_normal(c@),
{
    let n = c.unicode_len();
    if n == 0 {
        false
    } else if n == 1 && c.get_char(0) == '.' {
        assert(c@ =~= seq!['.']);
        false
    } else {
        assert(n == 1 ==> c@[0] != '.');
        assert(c@ != seq!['.']) by {
            if c@ == seq!['.'] {
                assert(c@.len() == 1);
                assert(c@[0] == '.');
            }
        }
        true
    }
}

/// Joins two paths as `PathBuf::push` does: a second path that is absolute
/// replaces the first; otherwise a separator is put between them when the
/// first is not empty and does not already end with one.
pub fn path_compose(path1: &str, path2: &str) -> (r: String)
    ensures
        r@ == spec_path_compose(path1@, path2@),
{
    let n1 = path1.unicode_len();
    let n2 = path2.unicode_len();
    if n2 > 0 && path2.get_char(0) == '/' {
        path2.to_owned()
    } else if n1 > 0 && path1.get_char(n1 - 1) != '/' {
        let mut r = path1.to_owned();
        push_char(&mut r, '/');
        r.append(path2);
        r
    } else {
        let mut r = path1.to_owned();
        r.append(path2);
        r
    }
}

/// The final component of a path (`Path::file_name`).
pub fn get_name(path: &str) -> (r: Option<String>)
    ensures
        match r {
            Some(s) => spec_get_name(path@) == Some(s@),
            None => spec_get_name(path@) is None,
        },
{
    let mut c = components(path);
    let k = c.len();
    if k == 0 {
        return None;
    }
    let last = c.pop().unwrap();
    proof {
        assert(last@ == views(c@.push(last)).last());
    }
    let is_dotdot = last.unicode_len() == 2 && last.as_str().get_char(0) == '.' && last.as_str().get_char(1) == '.';
    if is_dotdot {
        assert(last@ =~= seq!['.', '.']);
        None
    } else {
        assert(last@ != seq!['.', '.']) by {
            if last@ == seq!['.', '.'] {
                assert(last@.len() == 2 && last@[0] == '.' && last@[1] == '.');
            }
        }
        Some(last)
    }
}

fn trim_back_len(s: &str) -> (r: usize)
    ensures
        r <= s@.len(),
        trim_back(s@) =~= s@.subrange(0, r as int),
{
    let n = s.unicode_len();
    let mut k = n;
    proof {
        assert(s@.subrange(0, k as int) =~= s@);
    }
    while k >= 2 && (s.get_char(k - 1) == '/' || (s.get_char(k - 1) == '.' && s.get_char(k - 2) == '/'))
        invariant
            n == s@.len(),
            k <= n,
            trim_back(s@) == trim_back(s@.subrange(0, k as int)),
        decreases k,
    {
        proof {
            assert(s@.subrange(0, k as int).drop_last() =~= s@.subrange(0, k - 1));
        }
        k = k - 1;
    }
    k
}

fn last_slash_exec(s: &str, len: usize) -> (r: Option<usize>)
    requires
        len <= s@.len(),
    ensures
        match r {
            Some(j) => last_slash(s@.subrange(0, len as int)) == j as int,
            None => last_slash(s@.subrange(0, len as int)) == -1,
        },
{
    let mut k = len;
    while k > 0 && s.get_char(k - 1) != '/'
        invariant
            k <= len <= s@.len(),
            last_slash(s@.subrange(0, len as int)) == last_slash(s@.subrange(0, k as int)),
        decreases k,
    {
        proof {
            assert(s@.subrange(0, k as int).drop_last() =~= s@.subrange(0, k - 1));
        }
        k = k - 1;
    }
    if k == 0 {
        None
    } else {
        Some(k - 1)
    }
}

/// The path without its last component (`PathBuf::pop`); a path that has no
/// parent is returned unchanged.
pub fn get_parent_name(path: &str) -> (r: Option<String>)
    ensures
        r == Some(r->0) && r->0@ == spec_get_parent_name(path@),
{
    let c = components(path);
    let t = trim_back_len(path);
    let t_is_dot = t == 1 && path.get_char(0) == '.';
    proof {
        if t == 1 && path@[0] == '.' {
            assert(trim_back(path@) =~= seq!['.']);
        }
        if trim_back(path@) == seq!['.'] {
            assert(trim_back(path@).len() == 1 && trim_back(path@)[0] == '.');
        }
    }
    if c.len() == 0 && !t_is_dot {
        return Some(path.to_owned());
    }
    if t_is_dot {
        return Some(String::new());
    }
    proof {
        lemma_trim_back_prefix(path@);
        lemma_last_slash(path@.subrange(0, t as int));
    }
    match last_slash_exec(path, t) {
        None => Some(String::new()),
        Some(j) => {
            let pre = path.substring_char(0, j + 1);
            let k = trim_back_len(pre);
            proof {
                assert(trim_back(path@).subrange(0, j + 1) =~= pre@);
            }
            Some(pre.substring_char(0, k).to_owned())
        },
    }
}


/// A component that names an entry: not empty, `.` or `..`, and without a
/// separator.
pub open spec fn is_name(c: Seq<char>) -> bool {
    is_normal(c) && c != seq!['.', '.'] && !c.contains('/')
}

/// Walking components from a base: a `..` goes up (staying at the root),
/// anything else goes down.
pub open spec fn resolve(base: Seq<Seq<char>>, cs: Seq<Seq<char>>) -> Seq<Seq<char>>
    decreases cs.len(),
{
    if cs.len() == 0 {
        base
    } else {
        let b = resolve(base, cs.drop_last());
        if cs.last() == seq!['.', '.'] {
            if b.len() > 0 {
                b.drop_last()
            } else {
                b
            }
        } else {
            b.push(cs.last())
        }
    }
}

pub proof fn lemma_resolve_append(base: Seq<Seq<char>>, a: Seq<Seq<char>>, b: Seq<Seq<char>>)
    ensures
        resolve(base, a + b) == resolve(resolve(base, a), b),
    decreases b.len(),
{
    if b.len() == 0 {
        assert(a + b =~= a);
    } else {
        assert((a + b).drop_last() =~= a + b.drop_last());
        assert((a + b).last() == b.last());
        lemma_resolve_append(base, a, b.drop_last());
    }
}

/// Walking names and `..` from a base made of names gives names.
pub proof fn lemma_resolve_names(base: Seq<Seq<char>>, cs: Seq<Seq<char>>)
    requires
        forall|i: int| 0 <= i < base.len() ==> is_name(#[trigger] base[i]),
        forall|i: int| 0 <= i < cs.len() ==> is_normal(#[trigger] cs[i]) && !cs[i].contains('/'),
    ensures
        forall|i: int| 0 <= i < resolve(base, cs).len() ==> is_name(#[trigger] resolve(base, cs)[i]),
    decreases cs.len(),
{
    if cs.len() > 0 {
        lemma_resolve_names(base, cs.drop_last());
        let b = resolve(base, cs.drop_last());
        assert(is_normal(cs[cs.len() - 1]) && !cs[cs.len() - 1].contains('/'));
        if cs.last() == seq!['.', '.'] {
            if b.len() > 0 {
                assert forall|i: int| 0 <= i < b.drop_last().len() implies is_name(#[trigger] b.drop_last()[i]) by {
                    assert(b.drop_last()[i] == b[i]);
                }
            }
        } else {
            assert forall|i: int| 0 <= i < b.push(cs.last()).len() implies is_name(#[trigger] b.push(cs.last())[i]) by {
                if i < b.len() {
                    assert(b.push(cs.last())[i] == b[i]);
                }
            }
        }
    }
}

/// A single name has itself as its only component.
pub proof fn lemma_comps_name(c: Seq<char>)
    requires
        is_name(c),
    ensures
        comps(c) == seq![c],
{
    lemma_scan_plain(c);
    assert(Seq::<Seq<char>>::empty().push(c) =~= seq![c]);
}

/// Joining a name to a path gives a path whose final component is that name.
pub proof fn lemma_name_compose(a: Seq<char>, b: Seq<char>)
    requires
        is_name(b),
    ensures
        spec_get_name(spec_path_compose(a, b)) == Some(b),
{
    assert(!is_abs(b)) by {
        if is_abs(b) {
            assert(b.contains(b[0]));
        }
    }
    lemma_comps_compose(a, b);
    lemma_comps_name(b);
    assert((comps(a) + seq![b]).last() == b);
}

proof fn lemma_scan_plain(c: Seq<char>)
    requires
        !c.contains('/'),
    ensures
        scan(c) == (Seq::<Seq<char>>::empty(), c),
    decreases c.len(),
{
    if c.len() > 0 {
        assert(!c.drop_last().contains('/')) by {
            if c.drop_last().contains('/') {
                let i = choose|i: int| 0 <= i < c.drop_last().len() && c.drop_last()[i] == '/';
                assert(c[i] == '/');
            }
        }
        lemma_scan_plain(c.drop_last());
        assert(c[c.len() - 1] != '/');
        assert(c.drop_last().push(c.last()) =~= c);
    }
}

/// Walks components from a base.
pub fn resolve_into(base: &mut Vec<String>, cs: Vec<String>)
    ensures
        views(final(base)@) == resolve(views(old(base)@), views(cs@)),
{
    let mut i: usize = 0;
    let n = cs.len();
    proof {
        assert(views(cs@).subrange(0, 0) =~= Seq::<Seq<char>>::empty());
    }
    while i < n
        invariant
            n == cs@.len(),
            i <= n,
            views(base@) == resolve(views(old(base)@), views(cs@).subrange(0, i as int)),
        decreases n - i,
    {
        let c = &cs[i];
        let is_up = c.unicode_len() == 2 && c.as_str().get_char(0) == '.' && c.as_str().get_char(1) == '.';
        let ghost b0 = base@;
        proof {
            let s1 = views(cs@).subrange(0, i + 1);
            assert(s1.drop_last() =~= views(cs@).subrange(0, i as int));
            assert(s1.last() == c@);
            if is_up {
                assert(c@ =~= seq!['.', '.']);
            } else {
                assert(c@ != seq!['.', '.']) by {
                    if c@ == seq!['.', '.'] {
                        assert(c@.len() == 2 && c@[0] == '.' && c@[1] == '.');
                    }
                }
            }
        }
        if is_up {
            if base.len() > 0 {
                base.pop();
                proof {
                    assert(views(base@) =~= views(b0).drop_last());
                }
            }
        } else {
            base.push(c.clone());
            proof {
                assert(views(base@) =~= views(b0).push(c@));
            }
        }
        i = i + 1;
    }
    proof {
        assert(views(cs@).subrange(0, n as int) =~= views(cs@));
    }
}

} // verus!
