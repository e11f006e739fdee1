//! Paths as sequences of components.
//!
//! A path is read the way the standard library reads a Unix path: it is cut at
//! every `/`; empty pieces and `.` pieces are dropped, except that a leading
//! `/` gives the root component `/` and a leading `.` piece (as in `./a`) gives
//! the current-directory component `.`. Comparing paths component by component
//! makes `a//b`, `a/./b` and `a/b/` the same path as `a/b`.

use vstd::prelude::*;
use crate::text::{chars_of, string_of};

verus! {

/// The root component.
pub open spec fn root_component() -> Seq<char> {
    seq!['/']
}

/// The current-directory component.
pub open spec fn cur_component() -> Seq<char> {
    seq!['.']
}

/// The parent-directory component.
pub open spec fn parent_component() -> Seq<char> {
    seq!['.', '.']
}

/// The pieces of `s` between the separators `/`, empty ones included.
pub open spec fn split_pieces(s: Seq<char>) -> Seq<Seq<char>>
    decreases s.len(),
{
    if s.len() == 0 {
        seq![Seq::<char>::empty()]
    } else {
        let p = split_pieces(s.drop_last());
        if s.last() == '/' {
            p.push(Seq::<char>::empty())
        } else {
            p.update(p.len() - 1, p.last().push(s.last()))
        }
    }
}

/// A piece that names a directory entry: neither empty nor `.`.
pub open spec fn is_normal_piece(p: Seq<char>) -> bool {
    p.len() > 0 && p != cur_component()
}

/// The pieces of `ps` that name directory entries, in order.
pub open spec fn normal_pieces(ps: Seq<Seq<char>>) -> Seq<Seq<char>>
    decreases ps.len(),
{
    if ps.len() == 0 {
        Seq::empty()
    } else {
        let r = normal_pieces(ps.drop_last());
        if is_normal_piece(ps.last()) {
            r.push(ps.last())
        } else {
            r
        }
    }
}

/// The components of the path `s`.
pub open spec fn path_components(s: Seq<char>) -> Seq<Seq<char>> {
    let ps = split_pieces(s);
    if s.len() > 0 && s[0] == '/' {
        seq![root_component()] + normal_pieces(ps)
    } else if ps[0] == cur_component() {
        seq![cur_component()] + normal_pieces(ps)
    } else {
        normal_pieces(ps)
    }
}

/// The components of `cs` separated by `/`.
pub open spec fn join_with_slash(cs: Seq<Seq<char>>) -> Seq<char>
    decreases cs.len(),
{
    if cs.len() == 0 {
        Seq::empty()
    } else if cs.len() == 1 {
        cs[0]
    } else {
        join_with_slash(cs.drop_last()) + seq!['/'] + cs.last()
    }
}

/// The text of the path whose components are `cs`.
pub open spec fn render_components(cs: Seq<Seq<char>>) -> Seq<char> {
    if cs.len() > 0 && cs[0] == root_component() {
        seq!['/'] + join_with_slash(cs.drop_first())
    } else {
        join_with_slash(cs)
    }
}

/// `pre` is a leading part of `cs`, component by component.
pub open spec fn is_component_prefix(pre: Seq<Seq<char>>, cs: Seq<Seq<char>>) -> bool {
    pre.len() <= cs.len() && cs.take(pre.len() as int) == pre
}

/// `parent` relative to `root`: what is left of `parent` once the components
/// of `root` are taken off its front, or `parent` itself when it does not lie
/// under `root`.
pub open spec fn spec_relative_dir(parent: Seq<char>, root: Seq<char>) -> Seq<char> {
    let pc = path_components(parent);
    let rc = path_components(root);
    if is_component_prefix(rc, pc) {
        render_components(pc.skip(rc.len() as int))
    } else {
        parent
    }
}

/// The views of a sequence of character vectors.
pub open spec fn views(v: Seq<Vec<char>>) -> Seq<Seq<char>> {
    v.map_values(|x: Vec<char>| x@)
}

proof fn lemma_split_pieces_nonempty(s: Seq<char>)
    ensures
        split_pieces(s).len() >= 1,
    decreases s.len(),
{
    if s.len() > 0 {
        lemma_split_pieces_nonempty(s.drop_last());
    }
}

proof fn lemma_normal_pieces_push(ps: Seq<Seq<char>>, x: Seq<char>)
    ensures
        normal_pieces(ps.push(x)) == if is_normal_piece(x) {
            normal_pieces(ps).push(x)
        } else {
            normal_pieces(ps)
        },
{
    assert(ps.push(x).drop_last() =~= ps);
}

pub(crate) fn is_cur_piece(p: &Vec<char>) -> (b: bool)
    ensures
        b == (p@ == cur_component()),
{
    if p.len() == 1 && p[0] == '.' {
        assert(p@ =~= cur_component());
        true
    } else {
        false
    }
}

/// The components of the path `s`.
pub fn components(s: &str) -> (out: Vec<Vec<char>>)
    ensures
        views(out@) == path_components(s@),
{
    let cs = chars_of(s);
    let n = cs.len();
    let mut cur: Vec<char> = Vec::new();
    let mut normals: Vec<Vec<char>> = Vec::new();
    let ghost mut done: Seq<Seq<char>> = Seq::empty();
    let mut saw_sep = false;
    let mut first_dot = false;
    let mut i: usize = 0;
    assert(cs@.take(0) =~= Seq::<char>::empty());
    while i < n
        invariant
            n == cs@.len(),
            cs@ == s@,
            i <= n,
            split_pieces(cs@.take(i as int)) == done.push(cur@),
            views(normals@) == normal_pieces(done),
            saw_sep == (done.len() > 0),
            saw_sep ==> first_dot == (done[0] == cur_component()),
        decreases n - i,
    {
        let c = cs[i];
        let ghost before = cs@.take(i as int);
        assert(cs@.take(i + 1).drop_last() =~= before);
        assert(cs@.take(i + 1).last() == c);
        if c == '/' {
            let dot = is_cur_piece(&cur);
            proof {
                lemma_normal_pieces_push(done, cur@);
            }
            if cur.len() > 0 && !dot {
                normals.push(cur.clone());
                assert(views(normals@) =~= normal_pieces(done).push(cur@));
            }
            if !saw_sep {
                first_dot = dot;
                saw_sep = true;
            }
            proof {
                done = done.push(cur@);
            }
            cur = Vec::new();
            assert(split_pieces(cs@.take(i + 1)) =~= done.push(cur@));
        } else {
            cur.push(c);
            assert(split_pieces(cs@.take(i + 1)) =~= done.push(cur@));
        }
        i = i + 1;
    }
    assert(cs@.take(n as int) =~= s@);
    let ghost ps = done.push(cur@);
    assert(ps[0] == (if done.len() > 0 { done[0] } else { cur@ }));
    let last_dot = is_cur_piece(&cur);
    proof {
        lemma_normal_pieces_push(done, cur@);
    }
    if cur.len() > 0 && !last_dot {
        normals.push(cur);
    }
    assert(views(normals@) =~= normal_pieces(ps));
    let starts_at_root = n > 0 && cs[0] == '/';
    let starts_with_dot = if saw_sep { first_dot } else { last_dot };
    let mut out: Vec<Vec<char>> = Vec::new();
    if starts_at_root {
        let mut r: Vec<char> = Vec::new();
        r.push('/');
        assert(r@ =~= root_component());
        out.push(r);
    } else if starts_with_dot {
        let mut r: Vec<char> = Vec::new();
        r.push('.');
        assert(r@ =~= cur_component());
        out.push(r);
    }
    let ghost head = views(out@);
    out.append(&mut normals);
    assert(views(out@) =~= head + normal_pieces(ps));
    out
}

/// Renders the components `parts[start..]` as the text of a path.
pub fn render(parts: &Vec<Vec<char>>, start: usize) -> (out: Vec<char>)
    requires
        start <= parts@.len(),
    ensures
        out@ == render_components(views(parts@).skip(start as int)),
{
    let ghost cs = views(parts@).skip(start as int);
    let n = parts.len();
    let mut out: Vec<char> = Vec::new();
    let mut from = start;
    let mut rooted = false;
    if start < n && parts[start].len() == 1 && parts[start][0] == '/' {
        assert(parts@[start as int]@ =~= root_component());
        out.push('/');
        from = start + 1;
        rooted = true;
    } else {
        assert(!(cs.len() > 0 && cs[0] == root_component()));
    }
    let ghost prefix = out@;
    let mut j = from;
    assert(views(parts@).subrange(from as int, from as int) =~= Seq::<Seq<char>>::empty());
    while j < n
        invariant
            start <= from <= j <= n,
            rooted ==> from == start + 1 && start < n && cs[0] == root_component(),
            !rooted ==> from == start && !(cs.len() > 0 && cs[0] == root_component()),
            cs == views(parts@).skip(start as int),
            out@.len() >= 0,
            n == parts@.len(),
            out@ == prefix + join_with_slash(views(parts@).subrange(from as int, j as int)),
        decreases n - j,
    {
        let ghost sub = views(parts@).subrange(from as int, j as int);
        let ghost sub1 = views(parts@).subrange(from as int, j + 1);
        assert(sub1.drop_last() =~= sub);
        if j > from {
            out.push('/');
        }
        let piece = &parts[j];
        let mut k: usize = 0;
        let ghost mid = out@;
        while k < piece.len()
            invariant
                k <= piece@.len(),
                out@ == mid + piece@.take(k as int),
            decreases piece@.len() - k,
        {
            out.push(piece[k]);
            assert(mid + piece@.take(k as int) + seq![piece@[k as int]] =~= mid + piece@.take(k + 1));
            k = k + 1;
        }
        assert(piece@.take(piece@.len() as int) =~= piece@);
        if j == from {
            assert(sub1 =~= seq![piece@]);
            assert(out@ =~= prefix + join_with_slash(sub1));
        } else {
            assert(out@ =~= prefix + join_with_slash(sub1));
        }
        j = j + 1;
    }
    if rooted {
        assert(views(parts@).subrange(from as int, n as int) =~= cs.drop_first());
    } else {
        assert(views(parts@).subrange(from as int, n as int) =~= cs);
    }
    out
}

pub(crate) fn same_chars(a: &Vec<char>, b: &Vec<char>) -> (r: bool)
    ensures
        r == (a@ == b@),
{
    if a.len() != b.len() {
        return false;
    }
    let mut i: usize = 0;
    while i < a.len()
        invariant
            a@.len() == b@.len(),
            i <= a@.len(),
            forall|j: int| 0 <= j < i ==> a@[j] == b@[j],
        decreases a@.len() - i,
    {
        if a[i] != b[i] {
            return false;
        }
        i = i + 1;
    }
    assert(a@ =~= b@);
    true
}

fn starts_with_components(parts: &Vec<Vec<char>>, pre: &Vec<Vec<char>>) -> (r: bool)
    ensures
        r == is_component_prefix(views(pre@), views(parts@)),
{
    if pre.len() > parts.len() {
        return false;
    }
    let mut i: usize = 0;
    while i < pre.len()
        invariant
            pre@.len() <= parts@.len(),
            i <= pre@.len(),
            forall|j: int| 0 <= j < i ==> pre@[j]@ == parts@[j]@,
        decreases pre@.len() - i,
    {
        if !same_chars(&pre[i], &parts[i]) {
            assert(views(parts@).take(pre@.len() as int)[i as int] != views(pre@)[i as int]);
            return false;
        }
        i = i + 1;
    }
    assert(views(parts@).take(pre@.len() as int) =~= views(pre@));
    true
}

/// `path` below `base`: what is left of `path` once the components of `base`
/// are taken off its front, when `path` lies under `base`.
pub open spec fn spec_strip_prefix(path: Seq<char>, base: Seq<char>) -> Option<Seq<char>> {
    let pc = path_components(path);
    let bc = path_components(base);
    if is_component_prefix(bc, pc) {
        Some(render_components(pc.skip(bc.len() as int)))
    } else {
        None
    }
}

/// The part of `path` below `base`, comparing whole components; `None` when
/// `path` does not lie under `base`.
pub fn strip_path_prefix(path: &str, base: &str) -> (r: Option<String>)
    ensures
        match r {
            Some(rest) => spec_strip_prefix(path@, base@) == Some(rest@),
            None => spec_strip_prefix(path@, base@) is None,
        },
{
    let pc = components(path);
    let bc = components(base);
    if starts_with_components(&pc, &bc) {
        let v = render(&pc, bc.len());
        Some(string_of(v.as_slice()))
    } else {
        None
    }
}

/// Computes `parent` relative to the source `root`, so that the directory
/// structure can be recreated under a destination. When `parent` does not lie
/// under `root`, `parent` is returned unchanged. The comparison is made on
/// whole components, so a trailing separator on `root` is irrelevant.
pub fn relative_dir(parent: &str, root: &str) -> (r: String)
    ensures
        r@ == spec_relative_dir(parent@, root@),
{
    match strip_path_prefix(parent, root) {
        Some(rest) => rest,
        None => parent.to_owned(),
    }
}

/// The last component of the path `s` when it names an entry (it is not the
/// root, `.` or `..`).
pub open spec fn spec_file_name(s: Seq<char>) -> Option<Seq<char>> {
    let cs = path_components(s);
    if cs.len() > 0 && cs.last() != root_component() && cs.last() != cur_component()
        && cs.last() != parent_component() {
        Some(cs.last())
    } else {
        None
    }
}

/// The path `s` without its last component; there is none when `s` is empty
/// or ends in the root.
pub open spec fn spec_parent(s: Seq<char>) -> Option<Seq<char>> {
    let cs = path_components(s);
    if cs.len() > 0 && cs.last() != root_component() {
        Some(render_components(cs.drop_last()))
    } else {
        None
    }
}

pub(crate) fn is_root_piece(p: &Vec<char>) -> (b: bool)
    ensures
        b == (p@ == root_component()),
{
    if p.len() == 1 && p[0] == '/' {
        assert(p@ =~= root_component());
        true
    } else {
        false
    }
}

pub(crate) fn is_parent_piece(p: &Vec<char>) -> (b: bool)
    ensures
        b == (p@ == parent_component()),
{
    if p.len() == 2 && p[0] == '.' && p[1] == '.' {
        assert(p@ =~= parent_component());
        true
    } else {
        false
    }
}

/// The final component of `path`, when it names a file or directory.
pub fn file_name(path: &str) -> (r: Option<String>)
    ensures
        r matches Some(name) ==> spec_file_name(path@) == Some(name@),
        r is None ==> spec_file_name(path@) is None,
{
    let cs = components(path);
    let n = cs.len();
    if n == 0 {
        return None;
    }
    let last = &cs[n - 1];
    assert(views(cs@).last() == last@);
    if is_root_piece(last) || is_cur_piece(last) || is_parent_piece(last) {
        None
    } else {
        Some(string_of(last.as_slice()))
    }
}

/// The path that contains `path`, or `None` when `path` is empty or is a root.
pub fn parent(path: &str) -> (r: Option<String>)
    ensures
        r matches Some(p) ==> spec_parent(path@) == Some(p@),
        r is None ==> spec_parent(path@) is None,
{
    let mut cs = components(path);
    let n = cs.len();
    if n == 0 {
        return None;
    }
    assert(views(cs@).last() == cs@[n - 1]@);
    if is_root_piece(&cs[n - 1]) {
        return None;
    }
    let ghost all = views(cs@);
    cs.pop();
    assert(views(cs@) =~= all.drop_last());
    assert(all.drop_last().skip(0) =~= all.drop_last());
    let v = render(&cs, 0);
    Some(string_of(v.as_slice()))
}

/// No character of `p` is the separator.
pub open spec fn has_no_separator(p: Seq<char>) -> bool {
    forall|k: int| 0 <= k < p.len() ==> p[k] != '/'
}

/// A component that names a directory entry.
pub open spec fn is_entry_component(p: Seq<char>) -> bool {
    is_normal_piece(p) && has_no_separator(p)
}

/// `cs` is a sequence of components as `path_components` produces them: the
/// root or `.` may come first, every other component names an entry.
pub open spec fn well_formed_components(cs: Seq<Seq<char>>) -> bool {
    &&& forall|i: int| 1 <= i < cs.len() ==> is_entry_component(#[trigger] cs[i])
    &&& cs.len() > 0 ==> (cs[0] == root_component() || cs[0] == cur_component()
        || is_entry_component(cs[0]))
}

proof fn lemma_split_without_separator(p: Seq<char>)
    requires
        has_no_separator(p),
    ensures
        split_pieces(p) == seq![p],
    decreases p.len(),
{
    if p.len() > 0 {
        lemma_split_without_separator(p.drop_last());
        assert(p.last() == p[p.len() - 1]);
        assert(p.drop_last().push(p.last()) =~= p);
        assert(seq![p.drop_last()].update(0, p.drop_last().push(p.last())) =~= seq![p]);
    } else {
        assert(p =~= Seq::<char>::empty());
    }
}

proof fn lemma_split_at_separator(a: Seq<char>, b: Seq<char>)
    ensures
        split_pieces(a + seq!['/'] + b) == split_pieces(a) + split_pieces(b),
    decreases b.len(),
{
    lemma_split_pieces_nonempty(a);
    if b.len() == 0 {
        assert((a + seq!['/'] + b).drop_last() =~= a);
        assert(split_pieces(a) + split_pieces(b) =~= split_pieces(a).push(Seq::<char>::empty()));
    } else {
        let s = a + seq!['/'] + b;
        assert(s.drop_last() =~= a + seq!['/'] + b.drop_last());
        assert(s.last() == b.last());
        lemma_split_at_separator(a, b.drop_last());
        lemma_split_pieces_nonempty(b.drop_last());
        let pa = split_pieces(a);
        let pb = split_pieces(b.drop_last());
        if b.last() == '/' {
            assert((pa + pb).push(Seq::<char>::empty()) =~= pa + pb.push(Seq::<char>::empty()));
        } else {
            let p = pa + pb;
            assert(p.update(p.len() - 1, p.last().push(b.last())) =~= pa + pb.update(
                pb.len() - 1,
                pb.last().push(b.last()),
            ));
        }
    }
}

proof fn lemma_split_join(cs: Seq<Seq<char>>)
    requires
        cs.len() > 0,
        forall|i: int| 0 <= i < cs.len() ==> has_no_separator(#[trigger] cs[i]),
    ensures
        split_pieces(join_with_slash(cs)) == cs,
    decreases cs.len(),
{
    if cs.len() == 1 {
        lemma_split_without_separator(cs[0]);
        assert(seq![cs[0]] =~= cs);
    } else {
        let init = cs.drop_last();
        assert forall|i: int| 0 <= i < init.len() implies has_no_separator(#[trigger] init[i]) by {
            assert(init[i] == cs[i]);
        }
        lemma_split_join(init);
        lemma_split_at_separator(join_with_slash(init), cs.last());
        assert(has_no_separator(cs[cs.len() - 1]));
        lemma_split_without_separator(cs.last());
        assert(init + seq![cs.last()] =~= cs);
    }
}

proof fn lemma_join_first_char(cs: Seq<Seq<char>>)
    requires
        cs.len() > 0,
        cs[0].len() > 0,
    ensures
        join_with_slash(cs).len() > 0,
        join_with_slash(cs)[0] == cs[0][0],
    decreases cs.len(),
{
    if cs.len() > 1 {
        lemma_join_first_char(cs.drop_last());
    }
}

proof fn lemma_normal_pieces_add(a: Seq<Seq<char>>, b: Seq<Seq<char>>)
    ensures
        normal_pieces(a + b) == normal_pieces(a) + normal_pieces(b),
    decreases b.len(),
{
    if b.len() == 0 {
        assert(a + b =~= a);
        assert(normal_pieces(a) + normal_pieces(b) =~= normal_pieces(a));
    } else {
        lemma_normal_pieces_add(a, b.drop_last());
        assert((a + b).drop_last() =~= a + b.drop_last());
        assert((a + b).last() == b.last());
        if is_normal_piece(b.last()) {
            assert((normal_pieces(a) + normal_pieces(b.drop_last())).push(b.last())
                =~= normal_pieces(a) + normal_pieces(b.drop_last()).push(b.last()));
        }
    }
}

proof fn lemma_normal_pieces_all_normal(cs: Seq<Seq<char>>)
    requires
        forall|i: int| 0 <= i < cs.len() ==> is_normal_piece(#[trigger] cs[i]),
    ensures
        normal_pieces(cs) == cs,
    decreases cs.len(),
{
    if cs.len() > 0 {
        let init = cs.drop_last();
        assert(forall|i: int| 0 <= i < init.len() ==> init[i] == cs[i]);
        lemma_normal_pieces_all_normal(init);
        assert(is_normal_piece(cs[cs.len() - 1]));
        assert(init.push(cs.last()) =~= cs);
    }
}

/// Reading back a rendered path gives its components again.
pub proof fn lemma_components_of_render(cs: Seq<Seq<char>>)
    requires
        well_formed_components(cs),
    ensures
        path_components(render_components(cs)) == cs,
{
    let s = render_components(cs);
    if cs.len() == 0 {
        assert(s =~= Seq::<char>::empty());
        assert(split_pieces(s) =~= Seq::<Seq<char>>::empty().push(Seq::<char>::empty()));
        lemma_normal_pieces_push(Seq::<Seq<char>>::empty(), Seq::<char>::empty());
        assert(normal_pieces(split_pieces(s)) =~= cs);
    } else if cs[0] == root_component() {
        let rest = cs.drop_first();
        assert forall|i: int| 0 <= i < rest.len() implies is_entry_component(#[trigger] rest[i]) by {
            assert(rest[i] == cs[i + 1]);
        }
        let j = join_with_slash(rest);
        assert(s == Seq::<char>::empty() + seq!['/'] + j);
        lemma_split_at_separator(Seq::<char>::empty(), j);
        if rest.len() == 0 {
            assert(j =~= Seq::<char>::empty());
        } else {
            lemma_split_join(rest);
        }
        let ps = split_pieces(s);
        assert(ps == seq![Seq::<char>::empty()] + split_pieces(j));
        lemma_normal_pieces_add(seq![Seq::<char>::empty()], split_pieces(j));
        assert(seq![Seq::<char>::empty()] =~= Seq::<Seq<char>>::empty().push(Seq::<char>::empty()));
        lemma_normal_pieces_push(Seq::<Seq<char>>::empty(), Seq::<char>::empty());
        if rest.len() == 0 {
            assert(split_pieces(j) =~= seq![Seq::<char>::empty()]);
            lemma_normal_pieces_push(Seq::<Seq<char>>::empty(), Seq::<char>::empty());
        } else {
            lemma_normal_pieces_all_normal(rest);
        }
        assert(seq![root_component()] + rest =~= cs);
    } else {
        assert(forall|i: int| 0 <= i < cs.len() ==> has_no_separator(#[trigger] cs[i]));
        lemma_split_join(cs);
        lemma_join_first_char(cs);
        assert(s == join_with_slash(cs));
        assert(s[0] != '/');
        let ps = split_pieces(s);
        if cs[0] == cur_component() {
            let rest = cs.drop_first();
            assert forall|i: int| 0 <= i < rest.len() implies is_normal_piece(#[trigger] rest[i]) by {
                assert(rest[i] == cs[i + 1]);
            }
            lemma_normal_pieces_add(seq![cs[0]], rest);
            assert(seq![cs[0]] + rest =~= cs);
            assert(seq![cs[0]] =~= Seq::<Seq<char>>::empty().push(cs[0]));
            lemma_normal_pieces_push(Seq::<Seq<char>>::empty(), cs[0]);
            lemma_normal_pieces_all_normal(rest);
            assert(seq![cur_component()] + rest =~= cs);
        } else {
            assert(forall|i: int| 0 <= i < cs.len() ==> is_normal_piece(#[trigger] cs[i]));
            lemma_normal_pieces_all_normal(cs);
        }
    }
}

proof fn lemma_split_pieces_no_separator(s: Seq<char>)
    ensures
        forall|i: int| 0 <= i < split_pieces(s).len() ==> has_no_separator(
            #[trigger] split_pieces(s)[i],
        ),
    decreases s.len(),
{
    if s.len() > 0 {
        lemma_split_pieces_no_separator(s.drop_last());
        lemma_split_pieces_nonempty(s.drop_last());
    }
}

proof fn lemma_normal_pieces_entries(ps: Seq<Seq<char>>)
    requires
        forall|i: int| 0 <= i < ps.len() ==> has_no_separator(#[trigger] ps[i]),
    ensures
        forall|i: int| 0 <= i < normal_pieces(ps).len() ==> is_entry_component(
            #[trigger] normal_pieces(ps)[i],
        ),
    decreases ps.len(),
{
    if ps.len() > 0 {
        let init = ps.drop_last();
        assert(forall|i: int| 0 <= i < init.len() ==> init[i] == ps[i]);
        lemma_normal_pieces_entries(init);
        assert(has_no_separator(ps[ps.len() - 1]));
        let r = normal_pieces(init);
        if is_normal_piece(ps.last()) {
            assert(normal_pieces(ps) == r.push(ps.last()));
            assert forall|i: int| 0 <= i < r.len() + 1 implies is_entry_component(
                #[trigger] r.push(ps.last())[i],
            ) by {
                if i < r.len() {
                    assert(r.push(ps.last())[i] == r[i]);
                }
            }
        }
    }
}

/// The components of any path are well formed.
pub proof fn lemma_components_well_formed(s: Seq<char>)
    ensures
        well_formed_components(path_components(s)),
{
    let ps = split_pieces(s);
    lemma_split_pieces_no_separator(s);
    lemma_normal_pieces_entries(ps);
    let n = normal_pieces(ps);
    let cs = path_components(s);
    if s.len() > 0 && s[0] == '/' || ps[0] == cur_component() {
        assert(forall|i: int| 1 <= i < cs.len() ==> cs[i] == n[i - 1]);
    }
}

/// When `root` contains the source root, rebuilding the path from the root's
/// components followed by the components of `relative_dir(parent, root)`
/// gives back the components of `parent`: the mirrored tree has the shape of
/// the source tree.
pub proof fn law_relative_dir_rebuilds_parent(parent: Seq<char>, root: Seq<char>)
    requires
        is_component_prefix(path_components(root), path_components(parent)),
    ensures
        path_components(spec_relative_dir(parent, root)) == path_components(parent).skip(
            path_components(root).len() as int,
        ),
        path_components(root) + path_components(spec_relative_dir(parent, root))
            == path_components(parent),
{
    let pc = path_components(parent);
    let rc = path_components(root);
    let rest = pc.skip(rc.len() as int);
    lemma_components_well_formed(parent);
    assert(forall|i: int| 0 <= i < rest.len() ==> rest[i] == pc[i + rc.len()]);
    if rc.len() > 0 && rest.len() > 0 {
        assert(is_entry_component(pc[rc.len() as int]));
    }
    assert(well_formed_components(rest));
    lemma_components_of_render(rest);
    assert(pc.take(rc.len() as int) + rest =~= pc);
}

/// A trailing separator on the source root does not change the result.
pub proof fn law_relative_dir_ignores_trailing_separator(parent: Seq<char>, root: Seq<char>)
    requires
        root.len() > 0,
    ensures
        spec_relative_dir(parent, root.push('/')) == spec_relative_dir(parent, root),
{
    let r2 = root.push('/');
    assert(r2.drop_last() =~= root);
    lemma_split_pieces_nonempty(root);
    lemma_normal_pieces_push(split_pieces(root), Seq::<char>::empty());
    assert(split_pieces(r2)[0] == split_pieces(root)[0]);
    assert(r2[0] == root[0]);
    assert(path_components(r2) == path_components(root));
}

/// A directory is empty relative to itself: files directly in the source root
/// are copied directly into the destination root.
pub proof fn law_relative_dir_of_root_is_empty(root: Seq<char>)
    ensures
        spec_relative_dir(root, root) == Seq::<char>::empty(),
{
    let rc = path_components(root);
    assert(rc.take(rc.len() as int) =~= rc);
    assert(rc.skip(rc.len() as int) =~= Seq::<Seq<char>>::empty());
}

/// Going up one directory removes exactly the last component of the path.
pub proof fn law_parent_drops_last_component(s: Seq<char>)
    requires
        spec_parent(s) is Some,
    ensures
        path_components(spec_parent(s).unwrap()) == path_components(s).drop_last(),
{
    let cs = path_components(s);
    lemma_components_well_formed(s);
    let d = cs.drop_last();
    assert(forall|i: int| 0 <= i < d.len() ==> d[i] == cs[i]);
    assert(well_formed_components(d));
    lemma_components_of_render(d);
}

} // verus!
