//! A model of Unix paths held as text: separators, components, joining,
//! file names, extensions and parents, as `std::path` reads them on Unix.

use vstd::prelude::*;
use crate::text::{chars_eq, chars_of, string_of};

verus! {

/// The pieces of `p` between `/` separators, empty pieces included.
pub open spec fn split_slash(p: Seq<char>) -> Seq<Seq<char>>
    decreases p.len(),
{
    if p.len() == 0 {
        seq![Seq::<char>::empty()]
    } else {
        let rest = split_slash(p.drop_last());
        if p.last() == '/' {
            rest.push(Seq::<char>::empty())
        } else {
            rest.update(rest.len() - 1, rest.last().push(p.last()))
        }
    }
}

/// A piece that names something: neither empty nor `.`.
pub open spec fn is_named_segment(s: Seq<char>) -> bool {
    s.len() > 0 && s != seq!['.']
}

/// The naming pieces among `segs`, in order.
pub open spec fn keep_named(segs: Seq<Seq<char>>) -> Seq<Seq<char>>
    decreases segs.len(),
{
    if segs.len() == 0 {
        Seq::<Seq<char>>::empty()
    } else {
        let rest = keep_named(segs.drop_last());
        if is_named_segment(segs.last()) {
            rest.push(segs.last())
        } else {
            rest
        }
    }
}

/// The normal and parent (`..`) components of `p`, in order.
pub open spec fn named_components(p: Seq<char>) -> Seq<Seq<char>> {
    keep_named(split_slash(p))
}

/// `p` starts at the root.
pub open spec fn is_absolute(p: Seq<char>) -> bool {
    p.len() > 0 && p[0] == '/'
}

/// `p` starts with a `.` component.
pub open spec fn has_cur_dir(p: Seq<char>) -> bool {
    p.len() > 0 && p[0] == '.' && (p.len() == 1 || p[1] == '/')
}

/// The number of components of `p` (root, leading `.`, and named ones).
pub open spec fn component_count(p: Seq<char>) -> nat {
    (if is_absolute(p) { 1nat } else { 0nat }) + (if has_cur_dir(p) { 1nat } else { 0nat })
        + named_components(p).len()
}

/// A relative path made of exactly one component.
pub open spec fn is_simple_path(p: Seq<char>) -> bool {
    !is_absolute(p) && component_count(p) == 1
}

/// The final component of `p` when it is a normal one.
pub open spec fn file_name(p: Seq<char>) -> Option<Seq<char>> {
    let named = named_components(p);
    if named.len() > 0 && named.last() != seq!['.', '.'] {
        Some(named.last())
    } else {
        None
    }
}

/// The index of the last `.` in `s`, or -1.
pub open spec fn last_dot(s: Seq<char>) -> int
    decreases s.len(),
{
    if s.len() == 0 {
        -1
    } else if s.last() == '.' {
        s.len() - 1
    } else {
        last_dot(s.drop_last())
    }
}

/// The extension of the file name of `p`: what follows its last `.`, when
/// that `.` is not the name's first character.
pub open spec fn extension(p: Seq<char>) -> Option<Seq<char>> {
    match file_name(p) {
        Some(name) => if last_dot(name) > 0 {
            Some(name.subrange(last_dot(name) + 1, name.len() as int))
        } else {
            None
        },
        None => None,
    }
}

/// The file name of `p` without its extension.
pub open spec fn file_stem(p: Seq<char>) -> Option<Seq<char>> {
    match file_name(p) {
        Some(name) => if last_dot(name) > 0 {
            Some(name.subrange(0, last_dot(name)))
        } else {
            Some(name)
        },
        None => None,
    }
}

/// `a` joined with `b`: `b` itself when it is absolute, otherwise `b`
/// appended to `a` with one separator between them where one is needed.
pub open spec fn join(a: Seq<char>, b: Seq<char>) -> Seq<char> {
    if is_absolute(b) {
        b
    } else if a.len() > 0 && a.last() != '/' {
        a + seq!['/'] + b
    } else {
        a + b
    }
}

/// `p` without trailing separators and trailing `.` pieces, keeping a lone
/// root or a lone leading `.`.
pub open spec fn trim_end(p: Seq<char>) -> Seq<char>
    decreases p.len(),
{
    if p.len() > 1 && p.last() == '/' {
        trim_end(p.drop_last())
    } else if p.len() > 1 && p.last() == '.' && p[p.len() - 2] == '/' {
        trim_end(p.drop_last())
    } else {
        p
    }
}

/// The index of the last `/` in `s`, or -1.
pub open spec fn last_slash(s: Seq<char>) -> int
    decreases s.len(),
{
    if s.len() == 0 {
        -1
    } else if s.last() == '/' {
        s.len() - 1
    } else {
        last_slash(s.drop_last())
    }
}

/// The parent of `p`: `p` without its final component, or `None` when `p`
/// is empty or only the root.
pub open spec fn parent(p: Seq<char>) -> Option<Seq<char>> {
    let t = trim_end(p);
    if t.len() == 0 || t == seq!['/'] {
        None
    } else if last_slash(t) < 0 {
        Some(Seq::<char>::empty())
    } else {
        Some(trim_end(t.take(last_slash(t) + 1)))
    }
}

/// The views of a list of character vectors.
pub open spec fn views(v: Seq<Vec<char>>) -> Seq<Seq<char>> {
    v.map_values(|x: Vec<char>| x@)
}

proof fn lemma_split_step(p: Seq<char>, i: int)
    requires
        0 <= i < p.len(),
    ensures
        split_slash(p.take(i + 1)) == (if p[i] == '/' {
            split_slash(p.take(i)).push(Seq::<char>::empty())
        } else {
            let r = split_slash(p.take(i));
            r.update(r.len() - 1, r.last().push(p[i]))
        }),
{
    assert(p.take(i + 1).drop_last() =~= p.take(i));
}

proof fn lemma_keep_named_push(segs: Seq<Seq<char>>, s: Seq<char>)
    ensures
        keep_named(segs.push(s)) == (if is_named_segment(s) {
            keep_named(segs).push(s)
        } else {
            keep_named(segs)
        }),
{
    assert(segs.push(s).drop_last() =~= segs);
}

/// The normal and parent components of `p`, in order.
pub fn components_of(p: &str) -> (r: Vec<Vec<char>>)
    ensures
        views(r@) == named_components(p@),
{
    let cs = chars_of(p);
    let mut done: Vec<Vec<char>> = Vec::new();
    let mut cur: Vec<char> = Vec::new();
    let ghost mut completed: Seq<Seq<char>> = Seq::empty();
    let mut i: usize = 0;
    proof {
        assert(cs@.take(0) =~= Seq::<char>::empty());
        assert(split_slash(cs@.take(0)) =~= completed.push(cur@));
    }
    while i < cs.len()
        invariant
            i <= cs@.len(),
            split_slash(cs@.take(i as int)) == completed.push(cur@),
            views(done@) == keep_named(completed),
        decreases cs.len() - i,
    {
        let c = cs[i];
        proof {
            lemma_split_step(cs@, i as int);
        }
        if c == '/' {
            let dot = cur.len() == 1 && cur[0] == '.';
            proof {
                lemma_keep_named_push(completed, cur@);
                if cur@.len() == 1 && cur@[0] == '.' {
                    assert(cur@ =~= seq!['.']);
                }
            }
            let ghost old_done = done@;
            if cur.len() > 0 && !dot {
                let seg = cur;
                done.push(seg);
                proof {
                    assert(views(done@) =~= views(old_done).push(seg@));
                }
            }
            proof {
                completed = completed.push(cur@);
            }
            cur = Vec::new();
            proof {
                assert(split_slash(cs@.take(i + 1)) =~= completed.push(cur@));
            }
        } else {
            let ghost old_cur = cur@;
            cur.push(c);
            proof {
                assert(completed.push(old_cur).update(completed.len() as int, old_cur.push(c))
                    =~= completed.push(cur@));
            }
        }
        i = i + 1;
    }
    proof {
        assert(cs@.take(cs@.len() as int) =~= cs@);
        lemma_keep_named_push(completed, cur@);
        if cur@.len() == 1 && cur@[0] == '.' {
            assert(cur@ =~= seq!['.']);
        }
    }
    let dot = cur.len() == 1 && cur[0] == '.';
    let ghost old_done = done@;
    if cur.len() > 0 && !dot {
        let seg = cur;
        done.push(seg);
        proof {
            assert(views(done@) =~= views(old_done).push(seg@));
        }
    }
    done
}

/// Whether `p` starts at the root.
pub fn path_is_absolute(p: &str) -> (r: bool)
    ensures
        r == is_absolute(p@),
{
    let cs = chars_of(p);
    cs.len() > 0 && cs[0] == '/'
}

/// Whether `p` is a relative path of exactly one component.
pub fn path_is_simple(p: &str) -> (r: bool)
    ensures
        r == is_simple_path(p@),
{
    let cs = chars_of(p);
    let comps = components_of(p);
    let absolute = cs.len() > 0 && cs[0] == '/';
    let cur_dir = cs.len() > 0 && cs[0] == '.' && (cs.len() == 1 || cs[1] == '/');
    proof {
        assert(views(comps@).len() == comps@.len());
    }
    if absolute {
        return false;
    }
    if cur_dir {
        comps.len() == 0
    } else {
        comps.len() == 1
    }
}

/// The index of the last `.` in `v`, if any.
pub fn last_dot_of(v: &Vec<char>) -> (r: Option<usize>)
    ensures
        match r {
            Some(k) => last_dot(v@) == k as int && k < v@.len(),
            None => last_dot(v@) == -1,
        },
{
    let mut i: usize = v.len();
    proof {
        assert(v@.take(v@.len() as int) =~= v@);
    }
    while i > 0
        invariant
            i <= v@.len(),
            last_dot(v@) == last_dot(v@.take(i as int)),
        decreases i,
    {
        proof {
            assert(v@.take(i as int).drop_last() =~= v@.take(i - 1));
        }
        if v[i - 1] == '.' {
            return Some(i - 1);
        }
        i = i - 1;
    }
    None
}

/// The final normal component of `p`, if any.
pub fn file_name_chars(p: &str) -> (r: Option<Vec<char>>)
    ensures
        match r {
            Some(v) => file_name(p@) == Some(v@),
            None => file_name(p@) is None,
        },
{
    let mut comps = components_of(p);
    proof {
        assert(views(comps@).len() == comps@.len());
    }
    if comps.len() == 0 {
        return None;
    }
    let ghost before = comps@;
    let last = comps.pop().unwrap();
    proof {
        assert(last@ == views(before).last());
    }
    if chars_eq(&last, "..") {
        proof {
            reveal_strlit("..");
            assert(last@ =~= seq!['.', '.']);
        }
        None
    } else {
        proof {
            reveal_strlit("..");
            assert(last@ != seq!['.', '.']) by {
                if last@ == seq!['.', '.'] {
                    assert(last@ =~= ".."@);
                }
            }
        }
        Some(last)
    }
}

/// The final normal component of `p`, if any.
pub fn file_name_of(p: &str) -> (r: Option<String>)
    ensures
        match r {
            Some(s) => file_name(p@) == Some(s@),
            None => file_name(p@) is None,
        },
{
    match file_name_chars(p) {
        Some(v) => Some(string_of(&v)),
        None => None,
    }
}

/// Copies `v[from..to]`.
pub fn sub_chars(v: &Vec<char>, from: usize, to: usize) -> (r: Vec<char>)
    requires
        from <= to <= v@.len(),
    ensures
        r@ == v@.subrange(from as int, to as int),
{
    let mut r: Vec<char> = Vec::new();
    let mut i = from;
    while i < to
        invariant
            from <= i <= to <= v@.len(),
            r@ == v@.subrange(from as int, i as int),
        decreases to - i,
    {
        r.push(v[i]);
        proof {
            assert(v@.subrange(from as int, i + 1) =~= v@.subrange(from as int, i as int).push(v@[i as int]));
        }
        i = i + 1;
    }
    r
}

/// The extension of the file name of `p`, if any.
pub fn extension_of(p: &str) -> (r: Option<String>)
    ensures
        match r {
            Some(s) => extension(p@) == Some(s@),
            None => extension(p@) is None,
        },
{
    match file_name_chars(p) {
        Some(name) => match last_dot_of(&name) {
            Some(k) => if k > 0 {
                let n = name.len();
                let ext = sub_chars(&name, k + 1, n);
                Some(string_of(&ext))
            } else {
                None
            },
            None => None,
        },
        None => None,
    }
}

/// The file name of `p` without its extension, if `p` has a file name.
pub fn file_stem_of(p: &str) -> (r: Option<String>)
    ensures
        match r {
            Some(s) => file_stem(p@) == Some(s@),
            None => file_stem(p@) is None,
        },
{
    match file_name_chars(p) {
        Some(name) => match last_dot_of(&name) {
            Some(k) => if k > 0 {
                let stem = sub_chars(&name, 0, k);
                Some(string_of(&stem))
            } else {
                Some(string_of(&name))
            },
            None => Some(string_of(&name)),
        },
        None => None,
    }
}

/// Whether the extension of `p` is exactly `ext`.
pub fn has_extension(p: &str, ext: &str) -> (r: bool)
    ensures
        r == (extension(p@) == Some(ext@)),
{
    match extension_of(p) {
        Some(e) => {
            let ev = chars_of(e.as_str());
            chars_eq(&ev, ext)
        },
        None => false,
    }
}

/// `a` joined with `b`.
pub fn join_path(a: &str, b: &str) -> (r: String)
    ensures
        r@ == join(a@, b@),
{
    let av = chars_of(a);
    let bv = chars_of(b);
    let mut out: Vec<char> = Vec::new();
    if bv.len() > 0 && bv[0] == '/' {
        return string_of(&bv);
    }
    let mut i: usize = 0;
    while i < av.len()
        invariant
            i <= av@.len(),
            out@ == av@.take(i as int),
        decreases av.len() - i,
    {
        out.push(av[i]);
        proof {
            assert(av@.take(i + 1) =~= av@.take(i as int).push(av@[i as int]));
        }
        i = i + 1;
    }
    proof {
        assert(av@.take(av@.len() as int) =~= av@);
    }
    if av.len() > 0 && av[av.len() - 1] != '/' {
        out.push('/');
    }
    let ghost head = out@;
    let mut j: usize = 0;
    while j < bv.len()
        invariant
            j <= bv@.len(),
            out@ == head + bv@.take(j as int),
        decreases bv.len() - j,
    {
        out.push(bv[j]);
        proof {
            assert(bv@.take(j + 1) =~= bv@.take(j as int).push(bv@[j as int]));
            assert(head + bv@.take(j + 1) =~= (head + bv@.take(j as int)).push(bv@[j as int]));
        }
        j = j + 1;
    }
    proof {
        assert(bv@.take(bv@.len() as int) =~= bv@);
    }
    string_of(&out)
}

/// Removes trailing separators and trailing `.` pieces.
fn trim_end_chars(v: &mut Vec<char>)
    ensures
        final(v)@ == trim_end(old(v)@),
{
    while v.len() > 1 && (v[v.len() - 1] == '/' || (v[v.len() - 1] == '.' && v[v.len() - 2] == '/'))
        invariant
            trim_end(v@) == trim_end(old(v)@),
        decreases v.len(),
    {
        let ghost before = v@;
        v.pop();
        proof {
            assert(v@ =~= before.drop_last());
        }
    }
}

/// The index of the last `/` in `v`, if any.
fn last_slash_of(v: &Vec<char>) -> (r: Option<usize>)
    ensures
        match r {
            Some(k) => last_slash(v@) == k as int,
            None => last_slash(v@) == -1,
        },
{
    let mut i: usize = v.len();
    proof {
        assert(v@.take(v@.len() as int) =~= v@);
    }
    while i > 0
        invariant
            i <= v@.len(),
            last_slash(v@) == last_slash(v@.take(i as int)),
        decreases i,
    {
        proof {
            assert(v@.take(i as int).drop_last() =~= v@.take(i - 1));
        }
        if v[i - 1] == '/' {
            return Some(i - 1);
        }
        i = i - 1;
    }
    None
}

proof fn lemma_last_slash_bound(s: Seq<char>)
    ensures
        -1 <= last_slash(s) < s.len(),
    decreases s.len(),
{
    if s.len() > 0 {
        lemma_last_slash_bound(s.drop_last());
    }
}

/// The parent of `p`, if it has one.
pub fn parent_of(p: &str) -> (r: Option<String>)
    ensures
        match r {
            Some(s) => parent(p@) == Some(s@),
            None => parent(p@) is None,
        },
{
    let mut t = chars_of(p);
    trim_end_chars(&mut t);
    if t.len() == 0 || (t.len() == 1 && t[0] == '/') {
        proof {
            if t@.len() == 1 {
                assert(t@ =~= seq!['/']);
            }
        }
        return None;
    }
    proof {
        if t@ == seq!['/'] {
            assert(t@.len() == 1 && t@[0] == '/');
        }
    }
    match last_slash_of(&t) {
        None => Some(String::new()),
        Some(k) => {
            proof {
                lemma_last_slash_bound(t@);
            }
            let mut head = sub_chars(&t, 0, k + 1);
            proof {
                assert(head@ =~= t@.take(k + 1));
            }
            trim_end_chars(&mut head);
            Some(string_of(&head))
        },
    }
}

/// `a` and `b` name the same path component by component, as `Path`
/// equality compares them.
pub open spec fn same_path(a: Seq<char>, b: Seq<char>) -> bool {
    is_absolute(a) == is_absolute(b) && has_cur_dir(a) == has_cur_dir(b) && named_components(a)
        == named_components(b)
}

/// Whether `a` and `b` name the same path, component by component.
pub fn paths_equal(a: &str, b: &str) -> (r: bool)
    ensures
        r == same_path(a@, b@),
{
    let av = chars_of(a);
    let bv = chars_of(b);
    let a_abs = av.len() > 0 && av[0] == '/';
    let b_abs = bv.len() > 0 && bv[0] == '/';
    let a_cur = av.len() > 0 && av[0] == '.' && (av.len() == 1 || av[1] == '/');
    let b_cur = bv.len() > 0 && bv[0] == '.' && (bv.len() == 1 || bv[1] == '/');
    if a_abs != b_abs || a_cur != b_cur {
        return false;
    }
    let ac = components_of(a);
    let bc = components_of(b);
    proof {
        assert(views(ac@).len() == ac@.len());
        assert(views(bc@).len() == bc@.len());
    }
    if ac.len() != bc.len() {
        proof {
            assert(named_components(a@).len() != named_components(b@).len());
        }
        return false;
    }
    let mut i: usize = 0;
    while i < ac.len()
        invariant
            views(ac@) == named_components(a@),
            views(bc@) == named_components(b@),
            ac@.len() == bc@.len(),
            i <= ac@.len(),
            forall|j: int| 0 <= j < i ==> views(ac@)[j] == views(bc@)[j],
        decreases ac.len() - i,
    {
        if !crate::text::chars_same(&ac[i], &bc[i]) {
            proof {
                assert(views(ac@)[i as int] != views(bc@)[i as int]);
            }
            return false;
        }
        i = i + 1;
    }
    proof {
        assert(views(ac@) =~= views(bc@));
    }
    true
}

} // verus!
