//! Unix paths as strings, read the way `std::path::Path` reads them:
//! components, final file name, extension, stem, joining and prefixes.
use vstd::prelude::*;
use crate::text::{chars_equal, chars_of, string_of};

verus! {

/// The pieces of `s` between occurrences of `sep` (`str::split`); there is
/// always at least one piece.
pub open spec fn split_at_char(s: Seq<char>, sep: char) -> Seq<Seq<char>>
    decreases s.len(),
{
    if s.len() == 0 {
        seq![Seq::empty()]
    } else {
        let p = split_at_char(s.drop_last(), sep);
        if s.last() == sep {
            p.push(Seq::empty())
        } else {
            p.update(p.len() - 1, p.last().push(s.last()))
        }
    }
}

pub proof fn lemma_split_nonempty(s: Seq<char>, sep: char)
    ensures
        split_at_char(s, sep).len() >= 1,
    decreases s.len(),
{
    if s.len() > 0 {
        lemma_split_nonempty(s.drop_last(), sep);
    }
}

/// A string without `sep` is a single piece.
pub proof fn lemma_split_without_sep(s: Seq<char>, sep: char)
    requires
        forall|i: int| 0 <= i < s.len() ==> s[i] != sep,
    ensures
        split_at_char(s, sep) == seq![s],
    decreases s.len(),
{
    if s.len() > 0 {
        lemma_split_without_sep(s.drop_last(), sep);
        assert(s.drop_last().push(s.last()) =~= s);
    } else {
        assert(s =~= Seq::<char>::empty());
    }
}

/// No piece of a split holds the separator.
pub proof fn lemma_split_pieces_lack_sep(s: Seq<char>, sep: char)
    ensures
        forall|i: int, j: int| 0 <= i < split_at_char(s, sep).len() && 0 <= j < split_at_char(s, sep)[i].len()
            ==> #[trigger] split_at_char(s, sep)[i][j] != sep,
    decreases s.len(),
{
    if s.len() > 0 {
        lemma_split_pieces_lack_sep(s.drop_last(), sep);
        lemma_split_nonempty(s.drop_last(), sep);
        let p = split_at_char(s.drop_last(), sep);
        let q = split_at_char(s, sep);
        assert forall|i: int, j: int| 0 <= i < q.len() && 0 <= j < q[i].len() implies #[trigger] q[i][j] != sep by {
            if s.last() == sep {
                if i < p.len() {
                    assert(q[i] == p[i]);
                }
            } else {
                if i < p.len() - 1 {
                    assert(q[i] == p[i]);
                } else {
                    assert(q[i] == p.last().push(s.last()));
                    if j < p.last().len() {
                        assert(q[i][j] == p[p.len() - 1][j]);
                    }
                }
            }
        }
    }
}

/// Every kept segment is one of the segments.
pub proof fn lemma_kept_segments_from(segs: Seq<Seq<char>>)
    ensures
        forall|i: int| 0 <= i < kept_segments(segs).len() ==> exists|j: int| 0 <= j < segs.len() && #[trigger] kept_segments(segs)[i] == segs[j],
        forall|i: int| 0 <= i < kept_segments(segs).len() ==> (#[trigger] kept_segments(segs)[i]).len() > 0,
    decreases segs.len(),
{
    if segs.len() > 0 {
        lemma_kept_segments_from(segs.drop_last());
        let r = kept_segments(segs.drop_last());
        let k = kept_segments(segs);
        assert forall|i: int| 0 <= i < k.len() implies exists|j: int| 0 <= j < segs.len() && #[trigger] k[i] == segs[j] by {
            if i < r.len() {
                let j = choose|j: int| 0 <= j < segs.drop_last().len() && #[trigger] r[i] == segs.drop_last()[j];
                assert(k[i] == segs[j]);
            } else {
                assert(k[i] == segs[segs.len() - 1]);
            }
        }
        assert forall|i: int| 0 <= i < k.len() implies (#[trigger] k[i]).len() > 0 by {
            if i < r.len() {
                assert(k[i] == r[i]);
            }
        }
    }
}

/// A file name is a plain name: non-empty, without `/`, neither `.` nor `..`.
pub proof fn lemma_file_name_is_plain(p: Seq<char>)
    requires
        path_file_name(p) is Some,
    ensures
        ({
            let f = path_file_name(p)->0;
            &&& f.len() > 0
            &&& forall|i: int| 0 <= i < f.len() ==> f[i] != '/'
            &&& f != dot()
            &&& f != dot_dot()
        }),
{
    let segs = split_at_char(p, '/');
    let c = components(p);
    let f = c.last();
    let rooted = p.len() > 0 && p[0] == '/';
    let head: Seq<Seq<char>> = if rooted { seq![root_component()] } else { Seq::empty() };
    let k = kept_segments(segs);
    assert(c == head + k);
    lemma_kept_segments_from(segs);
    lemma_split_pieces_lack_sep(p, '/');
    if k.len() == 0 {
        assert(c.len() <= 1);
        assert(rooted ==> f == root_component());
    } else {
        assert(f == k[k.len() - 1]);
        let j = choose|j: int| 0 <= j < segs.len() && #[trigger] k[k.len() - 1] == segs[j];
        assert forall|i: int| 0 <= i < f.len() implies f[i] != '/' by {
            assert(segs[j][i] != '/');
        }
    }
}

/// Splits `cs` at every `sep` (see [`split_at_char`]).
pub fn split_on(cs: &Vec<char>, sep: char) -> (r: Vec<Vec<char>>)
    ensures
        r@.len() == split_at_char(cs@, sep).len(),
        forall|i: int| 0 <= i < r@.len() ==> #[trigger] r@[i]@ == split_at_char(cs@, sep)[i],
{
    let mut done: Vec<Vec<char>> = Vec::new();
    let mut cur: Vec<char> = Vec::new();
    let mut i: usize = 0;
    while i < cs.len()
        invariant
            i <= cs.len(),
            done@.len() + 1 == split_at_char(cs@.take(i as int), sep).len(),
            forall|j: int| 0 <= j < done@.len() ==> #[trigger] done@[j]@ == split_at_char(cs@.take(i as int), sep)[j],
            cur@ == split_at_char(cs@.take(i as int), sep).last(),
        decreases cs.len() - i,
    {
        proof {
            lemma_split_nonempty(cs@.take(i as int), sep);
        }
        assert(cs@.take(i + 1).drop_last() =~= cs@.take(i as int));
        if cs[i] == sep {
            let piece = cur;
            cur = Vec::new();
            done.push(piece);
            assert(cur@ =~= Seq::<char>::empty());
        } else {
            cur.push(cs[i]);
        }
        i += 1;
    }
    assert(cs@.take(cs.len() as int) =~= cs@);
    done.push(cur);
    done
}

/// The one-character name `.`.
pub open spec fn dot() -> Seq<char> {
    seq!['.']
}

/// The two-character name `..`.
pub open spec fn dot_dot() -> Seq<char> {
    seq!['.', '.']
}

/// The component that stands for the root directory.
pub open spec fn root_component() -> Seq<char> {
    seq!['/']
}

/// The pieces that remain as components: empty pieces (repeated or trailing
/// separators) go, and so does `.` anywhere but at the very start.
pub open spec fn kept_segments(segs: Seq<Seq<char>>) -> Seq<Seq<char>>
    decreases segs.len(),
{
    if segs.len() == 0 {
        Seq::empty()
    } else {
        let rest = kept_segments(segs.drop_last());
        let x = segs.last();
        if x.len() == 0 || (x == dot() && segs.len() > 1) {
            rest
        } else {
            rest.push(x)
        }
    }
}

/// The components of a Unix path as `Path::components` gives them: `/` for the
/// root, `.` for a leading current directory, `..` for a parent, otherwise the
/// name. Repeated separators, inner `.` and a trailing separator are ignored.
pub open spec fn components(s: Seq<char>) -> Seq<Seq<char>> {
    let rooted = s.len() > 0 && s[0] == '/';
    (if rooted { seq![root_component()] } else { Seq::empty() }) + kept_segments(split_at_char(s, '/'))
}

/// The final component of a path when it is a normal name (`Path::file_name`).
pub open spec fn path_file_name(s: Seq<char>) -> Option<Seq<char>> {
    let c = components(s);
    if c.len() == 0 {
        None
    } else {
        let x = c.last();
        if x == root_component() || x == dot() || x == dot_dot() {
            None
        } else {
            Some(x)
        }
    }
}

/// Position of the last `.` in `f`, or -1.
pub open spec fn last_dot(f: Seq<char>) -> int
    decreases f.len(),
{
    if f.len() == 0 {
        -1
    } else if f.last() == '.' {
        f.len() - 1
    } else {
        last_dot(f.drop_last())
    }
}

/// The extension of a file name: what follows its last `.`, unless there is no
/// `.`, or the only `.` starts the name, or the name is `..`.
pub open spec fn name_extension(f: Seq<char>) -> Option<Seq<char>> {
    if f == dot_dot() {
        None
    } else {
        let k = last_dot(f);
        if k <= 0 {
            None
        } else {
            Some(f.skip(k + 1))
        }
    }
}

/// The stem of a file name: what comes before its last `.`, or the whole name
/// when [`name_extension`] finds no extension.
pub open spec fn name_stem(f: Seq<char>) -> Seq<char> {
    if f == dot_dot() {
        f
    } else {
        let k = last_dot(f);
        if k <= 0 {
            f
        } else {
            f.take(k)
        }
    }
}

/// `Path::extension`: the extension of the path's file name, if any.
pub open spec fn path_extension(s: Seq<char>) -> Option<Seq<char>> {
    match path_file_name(s) {
        Some(f) => name_extension(f),
        None => None,
    }
}

/// `Path::file_stem`: the stem of the path's file name, if it has one.
pub open spec fn path_file_stem(s: Seq<char>) -> Option<Seq<char>> {
    match path_file_name(s) {
        Some(f) => Some(name_stem(f)),
        None => None,
    }
}

/// `PathBuf::join` on Unix: an absolute `p` replaces `base`; otherwise `p` is
/// appended, with a `/` between unless `base` is empty or already ends in one.
pub open spec fn path_join(base: Seq<char>, p: Seq<char>) -> Seq<char> {
    if p.len() > 0 && p[0] == '/' {
        p
    } else if base.len() == 0 || base.last() == '/' {
        base + p
    } else {
        base + seq!['/'] + p
    }
}

/// A piece that the `Path` reader skips between components: empty (from a
/// repeated or trailing separator) or `.`.
pub open spec fn is_filler(x: Seq<char>) -> bool {
    x.len() == 0 || x == dot()
}

/// The pieces that remain once the first `m` components have been read, the
/// reader starting at the first piece when `first` holds. A piece is read as
/// a component when [`kept_segments`] keeps it: not empty, and not `.` unless
/// it is the very first piece.
pub open spec fn drop_components(segs: Seq<Seq<char>>, m: nat, first: bool) -> Seq<Seq<char>>
    decreases segs.len(),
{
    if m == 0 || segs.len() == 0 {
        segs
    } else if segs[0].len() > 0 && !(segs[0] == dot() && !first) {
        drop_components(segs.drop_first(), (m - 1) as nat, false)
    } else {
        drop_components(segs.drop_first(), m, false)
    }
}

/// `segs` without its leading filler pieces.
pub open spec fn trim_front_fillers(segs: Seq<Seq<char>>) -> Seq<Seq<char>>
    decreases segs.len(),
{
    if segs.len() > 0 && is_filler(segs[0]) {
        trim_front_fillers(segs.drop_first())
    } else {
        segs
    }
}

/// `segs` without its trailing filler pieces.
pub open spec fn trim_back_fillers(segs: Seq<Seq<char>>) -> Seq<Seq<char>>
    decreases segs.len(),
{
    if segs.len() > 0 && is_filler(segs.last()) {
        trim_back_fillers(segs.drop_last())
    } else {
        segs
    }
}

/// The pieces of what `Path::strip_prefix` leaves of a rooted path after its
/// root and `m` more components: the raw rest of the path (repeated
/// separators and inner `.` kept), less filler pieces at either end, as
/// `Components::as_path` gives it. Joined by `/` they are the remaining path.
pub open spec fn rest_pieces(p: Seq<char>, m: nat) -> Seq<Seq<char>> {
    trim_back_fillers(trim_front_fillers(drop_components(split_at_char(p, '/'), m, true)))
}

/// `Path::starts_with`: the components of `base` are the first components of `p`.
pub open spec fn path_starts_with(p: Seq<char>, base: Seq<char>) -> bool {
    let a = components(p);
    let b = components(base);
    b.len() <= a.len() && a.take(b.len() as int) == b
}

fn is_dot(x: &Vec<char>) -> (r: bool)
    ensures
        r == (x@ == dot()),
{
    let r = x.len() == 1 && x[0] == '.';
    if r {
        assert(x@ =~= dot());
    }
    r
}

fn is_dot_dot(x: &Vec<char>) -> (r: bool)
    ensures
        r == (x@ == dot_dot()),
{
    let r = x.len() == 2 && x[0] == '.' && x[1] == '.';
    if r {
        assert(x@ =~= dot_dot());
    }
    r
}

/// The components of a path (see [`components`]).
pub fn path_components(cs: &Vec<char>) -> (r: Vec<Vec<char>>)
    ensures
        r@.len() == components(cs@).len(),
        forall|i: int| 0 <= i < r@.len() ==> #[trigger] r@[i]@ == components(cs@)[i],
{
    let segs = split_on(cs, '/');
    let ghost ss = split_at_char(cs@, '/');
    let mut out: Vec<Vec<char>> = Vec::new();
    let ghost head: Seq<Seq<char>> = Seq::empty();
    if cs.len() > 0 && cs[0] == '/' {
        let mut root: Vec<char> = Vec::new();
        root.push('/');
        assert(root@ =~= root_component());
        out.push(root);
        proof {
            head = seq![root_component()];
        }
    }
    let ghost rooted = cs@.len() > 0 && cs@[0] == '/';
    assert(head == (if rooted { seq![root_component()] } else { Seq::<Seq<char>>::empty() }));
    let mut i: usize = 0;
    assert(ss.take(0) =~= Seq::<Seq<char>>::empty());
    while i < segs.len()
        invariant
            i <= segs.len(),
            segs@.len() == ss.len(),
            forall|j: int| 0 <= j < segs@.len() ==> #[trigger] segs@[j]@ == ss[j],
            out@.len() == head.len() + kept_segments(ss.take(i as int)).len(),
            forall|j: int| 0 <= j < out@.len() ==> #[trigger] out@[j]@ == (head + kept_segments(ss.take(i as int)))[j],
        decreases segs.len() - i,
    {
        let x = &segs[i];
        assert(ss.take(i + 1).drop_last() =~= ss.take(i as int));
        assert(ss.take(i + 1).last() == ss[i as int]);
        let ghost before = head + kept_segments(ss.take(i as int));
        if x.len() == 0 || (is_dot(x) && i > 0) {
        } else {
            let mut y: Vec<char> = Vec::new();
            let mut t: usize = 0;
            while t < x.len()
                invariant
                    t <= x.len(),
                    y@ == x@.take(t as int),
                decreases x.len() - t,
            {
                y.push(x[t]);
                assert(x@.take(t + 1) == x@.take(t as int).push(x@[t as int]));
                t += 1;
            }
            assert(x@.take(x.len() as int) =~= x@);
            out.push(y);
            assert(head + kept_segments(ss.take(i + 1)) =~= before.push(x@));
        }
        i += 1;
    }
    assert(ss.take(segs.len() as int) =~= ss);
    out
}

/// The final component of `path` when it is a normal name (`Path::file_name`).
pub fn file_name(path: &str) -> (r: Option<String>)
    ensures
        match r {
            Some(f) => path_file_name(path@) == Some(f@),
            None => path_file_name(path@) is None,
        },
{
    let cs = chars_of(path);
    let comps = path_components(&cs);
    let n = comps.len();
    if n == 0 {
        return None;
    }
    let x = &comps[n - 1];
    assert(x@ == components(path@).last());
    let mut root: Vec<char> = Vec::new();
    root.push('/');
    assert(root@ =~= root_component());
    if chars_equal(x, &root) || is_dot(x) || is_dot_dot(x) {
        None
    } else {
        Some(string_of(x.as_slice()))
    }
}

pub proof fn lemma_last_dot(f: Seq<char>)
    ensures
        -1 <= last_dot(f) < f.len(),
        last_dot(f) >= 0 ==> f[last_dot(f)] == '.',
        forall|i: int| last_dot(f) < i < f.len() ==> f[i] != '.',
    decreases f.len(),
{
    if f.len() > 0 && f.last() != '.' {
        lemma_last_dot(f.drop_last());
        assert forall|i: int| last_dot(f) < i < f.len() implies f[i] != '.' by {
            if i < f.len() - 1 {
                assert(f[i] == f.drop_last()[i]);
            }
        }
    }
}

/// Position of the last `.` of `f`, if any.
fn find_last_dot(f: &Vec<char>) -> (r: Option<usize>)
    ensures
        match r {
            Some(k) => k as int == last_dot(f@) && k < f@.len(),
            None => last_dot(f@) == -1,
        },
{
    proof {
        lemma_last_dot(f@);
    }
    let mut i: usize = f.len();
    assert(f@.take(i as int) =~= f@);
    while i > 0
        invariant
            i <= f.len(),
            last_dot(f@) == last_dot(f@.take(i as int)),
        decreases i,
    {
        assert(f@.take(i as int).drop_last() =~= f@.take(i - 1));
        if f[i - 1] == '.' {
            return Some(i - 1);
        }
        i -= 1;
    }
    None
}

/// The extension of a file name (see [`name_extension`]).
pub fn file_name_extension(f: &str) -> (r: Option<String>)
    ensures
        match r {
            Some(e) => name_extension(f@) == Some(e@),
            None => name_extension(f@) is None,
        },
{
    let cs = chars_of(f);
    if is_dot_dot(&cs) {
        return None;
    }
    match find_last_dot(&cs) {
        None => None,
        Some(k) => {
            if k == 0 {
                None
            } else {
                assert(f@.skip(k + 1) =~= cs@.subrange(k + 1, cs@.len() as int));
                Some(crate::text::string_of_range(&cs, k + 1, cs.len()))
            }
        }
    }
}

/// The stem of a file name (see [`name_stem`]).
pub fn file_name_stem(f: &str) -> (r: String)
    ensures
        r@ == name_stem(f@),
{
    let cs = chars_of(f);
    if is_dot_dot(&cs) {
        return string_of(cs.as_slice());
    }
    match find_last_dot(&cs) {
        None => string_of(cs.as_slice()),
        Some(k) => {
            if k == 0 {
                string_of(cs.as_slice())
            } else {
                assert(f@.take(k as int) =~= cs@.subrange(0, k as int));
                crate::text::string_of_range(&cs, 0, k)
            }
        }
    }
}

/// The extension of a path's file name (`Path::extension`).
pub fn extension(path: &str) -> (r: Option<String>)
    ensures
        match r {
            Some(e) => path_extension(path@) == Some(e@),
            None => path_extension(path@) is None,
        },
{
    match file_name(path) {
        Some(f) => file_name_extension(f.as_str()),
        None => None,
    }
}

/// The stem of a path's file name (`Path::file_stem`).
pub fn file_stem(path: &str) -> (r: Option<String>)
    ensures
        match r {
            Some(e) => path_file_stem(path@) == Some(e@),
            None => path_file_stem(path@) is None,
        },
{
    match file_name(path) {
        Some(f) => Some(file_name_stem(f.as_str())),
        None => None,
    }
}

/// Joins `p` onto `base` the way `PathBuf::join` does on Unix.
pub fn join(base: &str, p: &str) -> (r: String)
    ensures
        r@ == path_join(base@, p@),
{
    let b = chars_of(base);
    let pc = chars_of(p);
    let mut out = String::new();
    if pc.len() > 0 && pc[0] == '/' {
        return string_of(pc.as_slice());
    }
    let mut all: Vec<char> = b.clone();
    assert(all@ == b@);
    if !(b.len() == 0 || b[b.len() - 1] == '/') {
        all.push('/');
    }
    let ghost mid = all@;
    let mut i: usize = 0;
    while i < pc.len()
        invariant
            i <= pc.len(),
            all@ == mid + pc@.take(i as int),
        decreases pc.len() - i,
    {
        all.push(pc[i]);
        assert(pc@.take(i + 1) == pc@.take(i as int).push(pc@[i as int]));
        i += 1;
    }
    assert(pc@.take(pc.len() as int) =~= pc@);
    string_of(all.as_slice())
}

/// Whether `p` starts with the components of `base` (`Path::starts_with`).
pub fn starts_with_path(p: &str, base: &str) -> (r: bool)
    ensures
        r == path_starts_with(p@, base@),
{
    let a = path_components(&chars_of(p));
    let b = path_components(&chars_of(base));
    if b.len() > a.len() {
        return false;
    }
    let mut i: usize = 0;
    while i < b.len()
        invariant
            i <= b.len() <= a.len(),
            a@.len() == components(p@).len(),
            b@.len() == components(base@).len(),
            forall|j: int| 0 <= j < a@.len() ==> #[trigger] a@[j]@ == components(p@)[j],
            forall|j: int| 0 <= j < b@.len() ==> #[trigger] b@[j]@ == components(base@)[j],
            forall|j: int| 0 <= j < i ==> components(p@)[j] == components(base@)[j],
        decreases b.len() - i,
    {
        if !chars_equal(&a[i], &b[i]) {
            assert(components(p@).take(b@.len() as int)[i as int] != components(base@)[i as int]);
            return false;
        }
        i += 1;
    }
    assert(components(p@).take(b@.len() as int) =~= components(base@));
    true
}

} // verus!
