//! Paths as Fleet reads them: Unix paths held as text, compared by their
//! components, with `~` standing for the home directory.

use vstd::prelude::*;
use crate::error::FleetError;
use crate::text::{chars_of, string_of};

verus! {

/// The segment `cur` as a named component: nothing when it is empty or `.`.
pub open spec fn kept(cur: Seq<char>) -> Seq<Seq<char>> {
    if cur.len() == 0 || cur == seq!['.'] {
        Seq::empty()
    } else {
        seq![cur]
    }
}

/// The named components of `cur + s`, where `cur` is the segment read so far.
pub open spec fn segments_after(s: Seq<char>, cur: Seq<char>) -> Seq<Seq<char>>
    decreases s.len(),
{
    if s.len() == 0 {
        kept(cur)
    } else if s[0] == '/' {
        kept(cur) + segments_after(s.drop_first(), Seq::empty())
    } else {
        segments_after(s.drop_first(), cur.push(s[0]))
    }
}

/// The named components of a path: the pieces between slashes, without
/// empty pieces and `.` (`..` is kept).
pub open spec fn segments(p: Seq<char>) -> Seq<Seq<char>> {
    segments_after(p, Seq::empty())
}

/// Whether the path starts at the root.
pub open spec fn has_root(p: Seq<char>) -> bool {
    p.len() > 0 && p[0] == '/'
}

/// Whether a relative path starts with the current-directory component `.`.
pub open spec fn starts_with_cur_dir(p: Seq<char>) -> bool {
    !has_root(p) && p.len() > 0 && p[0] == '.' && (p.len() == 1 || p[1] == '/')
}

/// The components of a path, as `std::path` yields them on Unix: the root
/// (written `/`) or a leading `.`, then the named components.
pub open spec fn components(p: Seq<char>) -> Seq<Seq<char>> {
    if has_root(p) {
        seq![seq!['/']] + segments(p)
    } else if starts_with_cur_dir(p) {
        seq![seq!['.']] + segments(p)
    } else {
        segments(p)
    }
}

/// Whether the components of `base` begin the components of `p`.
pub open spec fn path_starts_with(p: Seq<char>, base: Seq<char>) -> bool {
    components(base).len() <= components(p).len() && components(p).take(
        components(base).len() as int,
    ) == components(base)
}

/// Whether two paths have the same components.
pub open spec fn same_path(a: Seq<char>, b: Seq<char>) -> bool {
    components(a) == components(b)
}

/// Named components with each `..` taking back the component before it
/// (a `..` at the root stays at the root).
pub open spec fn resolve(segs: Seq<Seq<char>>) -> Seq<Seq<char>>
    decreases segs.len(),
{
    if segs.len() == 0 {
        Seq::empty()
    } else {
        let r = resolve(segs.drop_last());
        if segs.last() == seq!['.', '.'] {
            if r.len() > 0 {
                r.drop_last()
            } else {
                r
            }
        } else {
            r.push(segs.last())
        }
    }
}

/// Components joined by single slashes.
pub open spec fn slash_joined(segs: Seq<Seq<char>>) -> Seq<char>
    decreases segs.len(),
{
    if segs.len() == 0 {
        Seq::empty()
    } else if segs.len() == 1 {
        segs[0]
    } else {
        slash_joined(segs.drop_last()) + seq!['/'] + segs.last()
    }
}

/// An absolute path with `.`, empty pieces and `..` worked out by text alone.
pub open spec fn lexically_normal(p: Seq<char>) -> Seq<char> {
    seq!['/'] + slash_joined(resolve(segments(p)))
}

/// Whether a component is a plain name: not empty, without `/`, and not `.`.
pub open spec fn plain_name(x: Seq<char>) -> bool {
    &&& x.len() > 0
    &&& x != seq!['.']
    &&& forall|k: int| 0 <= k < x.len() ==> x[k] != '/'
}

/// Whether the path is absolute and has no `..` component (`.` and empty
/// pieces are never components).
pub open spec fn clean_absolute(p: Seq<char>) -> bool {
    &&& has_root(p)
    &&& forall|i: int| 0 <= i < segments(p).len() ==> segments(p)[i] != seq!['.', '.']
}

/// Whether the path starts with the component `~`.
pub open spec fn tilde_prefixed(p: Seq<char>) -> bool {
    p.len() > 0 && p[0] == '~' && (p.len() == 1 || p[1] == '/')
}

/// The path without leading empty and `.` components.
pub open spec fn trim_front(s: Seq<char>) -> Seq<char>
    decreases s.len(),
{
    if s.len() == 0 {
        s
    } else if s[0] == '/' {
        trim_front(s.drop_first())
    } else if s[0] == '.' && s.len() == 1 {
        Seq::empty()
    } else if s[0] == '.' && s[1] == '/' {
        trim_front(s.skip(2))
    } else {
        s
    }
}

/// The path without trailing empty and `.` components.
pub open spec fn trim_back(s: Seq<char>) -> Seq<char>
    decreases s.len(),
{
    if s.len() == 0 {
        s
    } else if s.last() == '/' {
        trim_back(s.drop_last())
    } else if s.last() == '.' && s.len() == 1 {
        Seq::empty()
    } else if s.last() == '.' && s[s.len() - 2] == '/' {
        trim_back(s.take(s.len() - 2))
    } else {
        s
    }
}

/// `rel` appended to `base` as `PathBuf::push` does on Unix: a rooted `rel`
/// replaces `base`; otherwise a slash goes between them unless `base` is
/// empty or already ends with one.
pub open spec fn joined(base: Seq<char>, rel: Seq<char>) -> Seq<char> {
    if has_root(rel) {
        rel
    } else if base.len() > 0 && base.last() != '/' {
        base + seq!['/'] + rel
    } else {
        base + rel
    }
}

/// A path with a leading `~` component replaced by the home directory;
/// `None` when that is needed and no home directory is known.
pub open spec fn expanded(p: Seq<char>, home: Option<Seq<char>>) -> Option<Seq<char>> {
    if tilde_prefixed(p) {
        match home {
            Some(h) => Some(joined(h, trim_back(trim_front(p.skip(1))))),
            None => None,
        }
    } else {
        Some(p)
    }
}

/// The views of an optional string.
pub open spec fn opt_view(o: Option<&str>) -> Option<Seq<char>> {
    match o {
        Some(s) => Some(s@),
        None => None,
    }
}

/// The default config location: `$XDG_CONFIG_HOME/fleet/workspaces.toml`, or
/// `~/.config/fleet/workspaces.toml` without it; `None` when neither is known.
pub open spec fn default_location(xdg: Option<Seq<char>>, home: Option<Seq<char>>) -> Option<
    Seq<char>,
> {
    let base = match xdg {
        Some(x) => Some(x),
        None => match home {
            Some(h) => Some(joined(h, ".config"@)),
            None => None,
        },
    };
    match base {
        Some(b) => Some(joined(b, "fleet/workspaces.toml"@)),
        None => None,
    }
}

/// The characters `v[lo..hi]`.
pub fn slice_chars(v: &Vec<char>, lo: usize, hi: usize) -> (r: Vec<char>)
    requires
        lo <= hi <= v.len(),
    ensures
        r@ == v@.subrange(lo as int, hi as int),
{
    let mut r: Vec<char> = Vec::new();
    let mut i = lo;
    while i < hi
        invariant
            lo <= i <= hi <= v.len(),
            r@ == v@.subrange(lo as int, i as int),
        decreases hi - i,
    {
        r.push(v[i]);
        i = i + 1;
    }
    r
}

/// `a` followed by `b`.
pub fn concat_chars(a: &Vec<char>, b: &Vec<char>) -> (r: Vec<char>)
    ensures
        r@ == a@ + b@,
{
    let mut r: Vec<char> = slice_chars(a, 0, a.len());
    let mut i: usize = 0;
    while i < b.len()
        invariant
            i <= b.len(),
            r@ == a@ + b@.take(i as int),
        decreases b.len() - i,
    {
        r.push(b[i]);
        i = i + 1;
    }
    assert(b@.take(b.len() as int) == b@);
    r
}

/// Whether two character sequences are equal.
pub fn chars_equal(a: &Vec<char>, b: &Vec<char>) -> (r: bool)
    ensures
        r == (a@ == b@),
{
    if a.len() != b.len() {
        return false;
    }
    let mut i: usize = 0;
    while i < a.len()
        invariant
            a.len() == b.len(),
            i <= a.len(),
            forall|j: int| 0 <= j < i ==> a@[j] == b@[j],
        decreases a.len() - i,
    {
        if a[i] != b[i] {
            return false;
        }
        i = i + 1;
    }
    assert(a@ =~= b@);
    true
}

fn trim_front_chars(v: &Vec<char>) -> (r: Vec<char>)
    ensures
        r@ == trim_front(v@),
{
    let n = v.len();
    let mut i: usize = 0;
    let mut done = false;
    assert(v@.skip(0) == v@);
    while !done && i < n
        invariant
            n == v.len(),
            i <= n,
            trim_front(v@.skip(i as int)) == trim_front(v@),
            done ==> trim_front(v@.skip(i as int)) == v@.skip(i as int),
        decreases n - i + if done { 0int } else { 1int },
    {
        let ghost s = v@.skip(i as int);
        if v[i] == '/' {
            assert(s.drop_first() == v@.skip(i + 1));
            i = i + 1;
        } else if v[i] == '.' && i + 1 == n {
            assert(v@.skip(n as int) =~= Seq::<char>::empty());
            i = n;
        } else if v[i] == '.' && v[i + 1] == '/' {
            assert(s.skip(2) == v@.skip(i + 2));
            i = i + 2;
        } else {
            done = true;
        }
    }
    if !done {
        assert(v@.skip(n as int) =~= Seq::<char>::empty());
    }
    slice_chars(v, i, n)
}

fn trim_back_chars(v: &Vec<char>) -> (r: Vec<char>)
    ensures
        r@ == trim_back(v@),
{
    let mut j: usize = v.len();
    let mut done = false;
    assert(v@.take(j as int) == v@);
    while !done && j > 0
        invariant
            j <= v.len(),
            trim_back(v@.take(j as int)) == trim_back(v@),
            done ==> trim_back(v@.take(j as int)) == v@.take(j as int),
        decreases j + if done { 0int } else { 1int },
    {
        let ghost s = v@.take(j as int);
        if v[j - 1] == '/' {
            assert(s.drop_last() == v@.take(j - 1));
            j = j - 1;
        } else if v[j - 1] == '.' && j == 1 {
            assert(v@.take(0) =~= Seq::<char>::empty());
            j = 0;
        } else if v[j - 1] == '.' && v[j - 2] == '/' {
            assert(s.take(s.len() - 2) == v@.take(j - 2));
            j = j - 2;
        } else {
            done = true;
        }
    }
    if !done {
        assert(v@.take(0) =~= Seq::<char>::empty());
    }
    slice_chars(v, 0, j)
}

fn joined_chars(base: &Vec<char>, rel: &Vec<char>) -> (r: Vec<char>)
    ensures
        r@ == joined(base@, rel@),
{
    if rel.len() > 0 && rel[0] == '/' {
        slice_chars(rel, 0, rel.len())
    } else if base.len() > 0 && base[base.len() - 1] != '/' {
        let mut b = slice_chars(base, 0, base.len());
        b.push('/');
        concat_chars(&b, rel)
    } else {
        concat_chars(base, rel)
    }
}

/// Replaces a leading `~` component by the home directory `home`
/// (the value of `HOME`, if it is set).
pub fn expand(path: &str, home: Option<&str>) -> (r: Result<String, FleetError>)
    ensures
        match r {
            Ok(s) => expanded(path@, opt_view(home)) == Some(s@),
            Err(e) => expanded(path@, opt_view(home)) is None && e is HomeNotSet,
        },
{
    let p = chars_of(path);
    if p.len() > 0 && p[0] == '~' && (p.len() == 1 || p[1] == '/') {
        match home {
            Some(h) => {
                let rest = slice_chars(&p, 1, p.len());
                let rel = trim_back_chars(&trim_front_chars(&rest));
                let hv = chars_of(h);
                Ok(string_of(&joined_chars(&hv, &rel)))
            },
            None => Err(FleetError::HomeNotSet),
        }
    } else {
        Ok(string_of(&p))
    }
}

proof fn lemma_trim_front_unrooted(s: Seq<char>)
    ensures
        !has_root(trim_front(s)),
    decreases s.len(),
{
    if s.len() == 0 {
    } else if s[0] == '/' {
        lemma_trim_front_unrooted(s.drop_first());
    } else if s[0] == '.' && s.len() == 1 {
    } else if s[0] == '.' && s[1] == '/' {
        lemma_trim_front_unrooted(s.skip(2));
    }
}

proof fn lemma_trim_back_prefix(s: Seq<char>)
    ensures
        trim_back(s).len() <= s.len(),
        trim_back(s) == s.take(trim_back(s).len() as int),
    decreases s.len(),
{
    if s.len() == 0 {
        assert(s.take(0) =~= s);
    } else if s.last() == '/' {
        lemma_trim_back_prefix(s.drop_last());
        let t = trim_back(s.drop_last());
        assert(s.drop_last().take(t.len() as int) =~= s.take(t.len() as int));
    } else if s.last() == '.' && s.len() == 1 {
        assert(s.take(0) =~= Seq::<char>::empty());
    } else if s.last() == '.' && s[s.len() - 2] == '/' {
        lemma_trim_back_prefix(s.take(s.len() - 2));
        let t = trim_back(s.take(s.len() - 2));
        assert(s.take(s.len() - 2).take(t.len() as int) =~= s.take(t.len() as int));
    } else {
        assert(s.take(s.len() as int) =~= s);
    }
}

/// Expanding a path a second time changes nothing, for a home directory
/// that does not itself start with the component `~`; the one exception is
/// an empty home with a result that starts with `~` again (`~/~/x` expands
/// to `~/x`, which expands to `x`).
pub proof fn expansion_is_stable(p: Seq<char>, h: Seq<char>)
    requires
        !tilde_prefixed(h),
        h.len() > 0 || !(expanded(p, Some(h)) matches Some(q) && tilde_prefixed(q)),
    ensures
        expanded(p, Some(h)) matches Some(q) ==> expanded(q, Some(h)) == Some(q),
{
    if tilde_prefixed(p) && h.len() > 0 {
        let f = trim_front(p.skip(1));
        let t = trim_back(f);
        lemma_trim_front_unrooted(p.skip(1));
        lemma_trim_back_prefix(f);
        if t.len() > 0 {
            assert(t[0] == f[0]);
        }
        assert(!has_root(t));
        let q = joined(h, t);
        assert(q[0] == h[0]);
        if h.len() > 1 {
            assert(q[1] == h[1]);
        }
        assert(!tilde_prefixed(q));
    }
}

/// Where the config lives when `--config` is not given, from the values of
/// `XDG_CONFIG_HOME` and `HOME`.
pub fn default_path(xdg_config_home: Option<&str>, home: Option<&str>) -> (r: Result<
    String,
    FleetError,
>)
    ensures
        match r {
            Ok(s) => default_location(opt_view(xdg_config_home), opt_view(home)) == Some(s@),
            Err(e) => default_location(opt_view(xdg_config_home), opt_view(home)) is None
                && e is HomeNotSet,
        },
{
    let base = match xdg_config_home {
        Some(x) => chars_of(x),
        None => match home {
            Some(h) => joined_chars(&chars_of(h), &chars_of(".config")),
            None => {
                return Err(FleetError::HomeNotSet);
            },
        },
    };
    Ok(string_of(&joined_chars(&base, &chars_of("fleet/workspaces.toml"))))
}

/// The character sequences held by a vector of character vectors.
pub open spec fn seqs(v: Seq<Vec<char>>) -> Seq<Seq<char>> {
    v.map_values(|x: Vec<char>| x@)
}

proof fn lemma_seqs_push(v: Seq<Vec<char>>, x: Vec<char>)
    ensures
        seqs(v.push(x)) == seqs(v).push(x@),
{
    assert(seqs(v.push(x)) =~= seqs(v).push(x@));
}

fn is_kept(cur: &Vec<char>) -> (b: bool)
    ensures
        b == (kept(cur@).len() == 1),
{
    let b = cur.len() > 0 && !(cur.len() == 1 && cur[0] == '.');
    assert(b ==> cur@ != seq!['.']);
    assert(cur.len() == 1 && cur[0] == '.' ==> cur@ =~= seq!['.']);
    b
}

fn segments_of(v: &Vec<char>) -> (r: Vec<Vec<char>>)
    ensures
        seqs(r@) == segments(v@),
{
    let mut done: Vec<Vec<char>> = Vec::new();
    let mut cur: Vec<char> = Vec::new();
    let mut i: usize = 0;
    assert(v@.skip(0) == v@);
    assert(seqs(done@) =~= Seq::<Seq<char>>::empty());
    while i < v.len()
        invariant
            i <= v.len(),
            seqs(done@) + segments_after(v@.skip(i as int), cur@) == segments(v@),
        decreases v.len() - i,
    {
        let ghost s = v@.skip(i as int);
        assert(s.drop_first() == v@.skip(i + 1));
        if v[i] == '/' {
            let ghost before = seqs(done@);
            let ghost old_cur = cur@;
            assert(segments_after(s, old_cur) == kept(old_cur) + segments_after(
                s.drop_first(),
                Seq::empty(),
            ));
            if is_kept(&cur) {
                proof {
                    lemma_seqs_push(done@, cur);
                }
                done.push(cur);
                assert(kept(old_cur) =~= seq![old_cur]);
                assert(seqs(done@) =~= before + kept(old_cur));
            } else {
                assert(kept(old_cur) =~= Seq::<Seq<char>>::empty());
                assert(seqs(done@) =~= before + kept(old_cur));
            }
            cur = Vec::new();
            assert(cur@ =~= Seq::<char>::empty());
            assert(seqs(done@) + segments_after(v@.skip(i + 1), cur@) =~= before + segments_after(
                s,
                old_cur,
            ));
        } else {
            cur.push(v[i]);
        }
        i = i + 1;
    }
    assert(v@.skip(i as int) =~= Seq::<char>::empty());
    let ghost before = seqs(done@);
    let ghost old_cur = cur@;
    if is_kept(&cur) {
        proof {
            lemma_seqs_push(done@, cur);
        }
        done.push(cur);
        assert(kept(old_cur) =~= seq![old_cur]);
    } else {
        assert(kept(old_cur) =~= Seq::<Seq<char>>::empty());
    }
    assert(seqs(done@) =~= before + kept(old_cur));
    done
}

proof fn lemma_segments_plain(s: Seq<char>, cur: Seq<char>)
    requires
        forall|k: int| 0 <= k < cur.len() ==> cur[k] != '/',
    ensures
        forall|i: int|
            0 <= i < segments_after(s, cur).len() ==> plain_name(#[trigger] segments_after(s, cur)[i]),
    decreases s.len(),
{
    if cur.len() > 0 && cur != seq!['.'] {
        assert(kept(cur) == seq![cur]);
        assert(plain_name(cur));
    }
    if s.len() == 0 {
        assert(segments_after(s, cur) == kept(cur));
    } else if s[0] == '/' {
        lemma_segments_plain(s.drop_first(), Seq::empty());
        let a = kept(cur);
        let b = segments_after(s.drop_first(), Seq::empty());
        assert(segments_after(s, cur) == a + b);
        assert forall|i: int| 0 <= i < (a + b).len() implies plain_name(#[trigger] (a + b)[i]) by {
            if i >= a.len() {
                assert((a + b)[i] == b[i - a.len()]);
            } else {
                assert((a + b)[i] == a[i]);
            }
        }
    } else {
        let next = cur.push(s[0]);
        assert forall|k: int| 0 <= k < next.len() implies next[k] != '/' by {
            if k < cur.len() {
                assert(next[k] == cur[k]);
            }
        }
        lemma_segments_plain(s.drop_first(), next);
        assert(segments_after(s, cur) == segments_after(s.drop_first(), next));
    }
}

proof fn lemma_resolve_plain(segs: Seq<Seq<char>>)
    requires
        forall|i: int| 0 <= i < segs.len() ==> plain_name(#[trigger] segs[i]),
    ensures
        forall|i: int|
            0 <= i < resolve(segs).len() ==> plain_name(#[trigger] resolve(segs)[i]) && resolve(segs)[i]
                != seq!['.', '.'],
    decreases segs.len(),
{
    if segs.len() > 0 {
        let init = segs.drop_last();
        assert forall|i: int| 0 <= i < init.len() implies plain_name(#[trigger] init[i]) by {
            assert(init[i] == segs[i]);
        }
        lemma_resolve_plain(init);
        let r = resolve(init);
        if segs.last() == seq!['.', '.'] {
            if r.len() > 0 {
                assert forall|i: int| 0 <= i < r.drop_last().len() implies plain_name(
                    #[trigger] r.drop_last()[i],
                ) && r.drop_last()[i] != seq!['.', '.'] by {
                    assert(r.drop_last()[i] == r[i]);
                }
            }
        } else {
            assert forall|i: int| 0 <= i < r.push(segs.last()).len() implies plain_name(
                #[trigger] r.push(segs.last())[i],
            ) && r.push(segs.last())[i] != seq!['.', '.'] by {
                if i < r.len() {
                    assert(r.push(segs.last())[i] == r[i]);
                }
            }
        }
    }
}

proof fn lemma_segments_within(s: Seq<char>, cur: Seq<char>)
    requires
        forall|k: int| 0 <= k < s.len() ==> s[k] != '/',
    ensures
        segments_after(s, cur) == kept(cur + s),
    decreases s.len(),
{
    if s.len() == 0 {
        assert(cur + s =~= cur);
    } else {
        assert(s[0] != '/');
        assert forall|k: int| 0 <= k < s.drop_first().len() implies s.drop_first()[k] != '/' by {
            assert(s.drop_first()[k] == s[k + 1]);
        }
        lemma_segments_within(s.drop_first(), cur.push(s[0]));
        assert(cur.push(s[0]) + s.drop_first() =~= cur + s);
    }
}

proof fn lemma_segments_split(a: Seq<char>, b: Seq<char>, cur: Seq<char>)
    ensures
        segments_after(a + seq!['/'] + b, cur) == segments_after(a, cur) + segments_after(
            b,
            Seq::empty(),
        ),
    decreases a.len(),
{
    let s = a + seq!['/'] + b;
    if a.len() == 0 {
        assert(s[0] == '/');
        assert(s.drop_first() =~= b);
    } else {
        assert(s[0] == a[0]);
        assert(s.drop_first() =~= a.drop_first() + seq!['/'] + b);
        if a[0] == '/' {
            lemma_segments_split(a.drop_first(), b, Seq::empty());
            assert(kept(cur) + (segments_after(a.drop_first(), Seq::empty()) + segments_after(
                b,
                Seq::empty(),
            )) =~= (kept(cur) + segments_after(a.drop_first(), Seq::empty())) + segments_after(
                b,
                Seq::empty(),
            ));
        } else {
            lemma_segments_split(a.drop_first(), b, cur.push(a[0]));
        }
    }
}

proof fn lemma_segments_of_joined(xs: Seq<Seq<char>>)
    requires
        forall|i: int| 0 <= i < xs.len() ==> plain_name(#[trigger] xs[i]),
    ensures
        segments(seq!['/'] + slash_joined(xs)) == xs,
    decreases xs.len(),
{
    let e = Seq::<char>::empty();
    if xs.len() == 0 {
        let s = seq!['/'] + slash_joined(xs);
        assert(s =~= e + seq!['/'] + e);
        lemma_segments_split(e, e, e);
        assert(kept(e) =~= Seq::<Seq<char>>::empty());
        assert(kept(e) + kept(e) =~= xs);
    } else if xs.len() == 1 {
        assert(plain_name(xs[0]));
        assert(seq!['/'] + slash_joined(xs) =~= e + seq!['/'] + xs[0]);
        lemma_segments_split(e, xs[0], e);
        lemma_segments_within(xs[0], e);
        assert(e + xs[0] =~= xs[0]);
        assert(kept(e) + kept(xs[0]) =~= xs);
    } else {
        let init = xs.drop_last();
        assert forall|i: int| 0 <= i < init.len() implies plain_name(#[trigger] init[i]) by {
            assert(init[i] == xs[i]);
        }
        lemma_segments_of_joined(init);
        assert(plain_name(xs[xs.len() - 1]));
        let head = seq!['/'] + slash_joined(init);
        assert(seq!['/'] + slash_joined(xs) =~= head + seq!['/'] + xs.last());
        lemma_segments_split(head, xs.last(), e);
        lemma_segments_within(xs.last(), e);
        assert(e + xs.last() =~= xs.last());
        assert(init + kept(xs.last()) =~= xs);
    }
}

/// A lexically normal path is absolute and has no `..` component.
pub proof fn lemma_normal_is_clean(p: Seq<char>)
    ensures
        clean_absolute(lexically_normal(p)),
{
    lemma_segments_plain(p, Seq::empty());
    lemma_resolve_plain(segments(p));
    lemma_segments_of_joined(resolve(segments(p)));
}

/// Whether `p` is absolute and has no `..` component.
pub fn is_clean_absolute(p: &str) -> (b: bool)
    ensures
        b == clean_absolute(p@),
{
    let v = chars_of(p);
    if v.len() == 0 || v[0] != '/' {
        return false;
    }
    let segs = segments_of(&v);
    let mut i: usize = 0;
    while i < segs.len()
        invariant
            i <= segs.len(),
            seqs(segs@) == segments(p@),
            forall|j: int| 0 <= j < i ==> (#[trigger] seqs(segs@)[j]) != seq!['.', '.'],
        decreases segs.len() - i,
    {
        let seg = &segs[i];
        assert(seqs(segs@)[i as int] == seg@);
        if seg.len() == 2 && seg[0] == '.' && seg[1] == '.' {
            assert(seg@ =~= seq!['.', '.']);
            return false;
        }
        assert(seg@ != seq!['.', '.']) by {
            if seg@ == seq!['.', '.'] {
                assert(seg@.len() == 2);
            }
        }
        i = i + 1;
    }
    true
}

/// The components of `p` (see [`components`]).
pub fn components_of(p: &Vec<char>) -> (r: Vec<Vec<char>>)
    ensures
        seqs(r@) == components(p@),
{
    let segs = segments_of(p);
    let mut r: Vec<Vec<char>> = Vec::new();
    if p.len() > 0 && p[0] == '/' {
        let mut root: Vec<char> = Vec::new();
        root.push('/');
        assert(root@ =~= seq!['/']);
        proof {
            lemma_seqs_push(r@, root);
        }
        r.push(root);
    } else if p.len() > 0 && p[0] == '.' && (p.len() == 1 || p[1] == '/') {
        let mut cur: Vec<char> = Vec::new();
        cur.push('.');
        assert(cur@ =~= seq!['.']);
        proof {
            lemma_seqs_push(r@, cur);
        }
        r.push(cur);
    }
    let ghost head = seqs(r@);
    assert(head =~= (if has_root(p@) {
        seq![seq!['/']]
    } else if starts_with_cur_dir(p@) {
        seq![seq!['.']]
    } else {
        Seq::<Seq<char>>::empty()
    }));
    let mut i: usize = 0;
    while i < segs.len()
        invariant
            i <= segs.len(),
            seqs(r@) == head + seqs(segs@).take(i as int),
        decreases segs.len() - i,
    {
        let x = slice_chars(&segs[i], 0, segs[i].len());
        assert(x@ =~= seqs(segs@)[i as int]);
        proof {
            lemma_seqs_push(r@, x);
        }
        r.push(x);
        assert(seqs(segs@).take(i + 1) =~= seqs(segs@).take(i as int).push(x@));
        i = i + 1;
    }
    assert(seqs(segs@).take(segs.len() as int) =~= seqs(segs@));
    r
}

/// Whether the components of `base` begin the components of `p`.
pub fn starts_with(p: &str, base: &str) -> (r: bool)
    ensures
        r == path_starts_with(p@, base@),
{
    let pc = components_of(&chars_of(p));
    let bc = components_of(&chars_of(base));
    if bc.len() > pc.len() {
        return false;
    }
    let mut i: usize = 0;
    while i < bc.len()
        invariant
            seqs(pc@) == components(p@),
            seqs(bc@) == components(base@),
            bc.len() <= pc.len(),
            i <= bc.len(),
            forall|j: int| 0 <= j < i ==> seqs(pc@)[j] == seqs(bc@)[j],
        decreases bc.len() - i,
    {
        assert(seqs(pc@)[i as int] == pc@[i as int]@ && seqs(bc@)[i as int] == bc@[i as int]@);
        if !chars_equal(&pc[i], &bc[i]) {
            assert(seqs(pc@).take(bc.len() as int)[i as int] != seqs(bc@)[i as int]);
            assert(seqs(pc@).take(bc.len() as int) != seqs(bc@));
            return false;
        }
        i = i + 1;
    }
    assert(seqs(pc@).take(bc.len() as int) =~= seqs(bc@));
    true
}

/// Whether two paths have the same components.
pub fn same(a: &str, b: &str) -> (r: bool)
    ensures
        r == same_path(a@, b@),
{
    let ac = components_of(&chars_of(a));
    let bc = components_of(&chars_of(b));
    if ac.len() != bc.len() {
        assert(seqs(ac@).len() != seqs(bc@).len());
        return false;
    }
    let mut i: usize = 0;
    while i < ac.len()
        invariant
            seqs(ac@) == components(a@),
            seqs(bc@) == components(b@),
            ac.len() == bc.len(),
            i <= ac.len(),
            forall|j: int| 0 <= j < i ==> seqs(ac@)[j] == seqs(bc@)[j],
        decreases ac.len() - i,
    {
        assert(seqs(ac@)[i as int] == ac@[i as int]@ && seqs(bc@)[i as int] == bc@[i as int]@);
        if !chars_equal(&ac[i], &bc[i]) {
            assert(seqs(ac@)[i as int] != seqs(bc@)[i as int]);
            assert(seqs(ac@) != seqs(bc@));
            return false;
        }
        i = i + 1;
    }
    assert(seqs(ac@) =~= seqs(bc@));
    true
}

/// An absolute path with `.`, empty pieces and `..` worked out by text alone,
/// as folding its components into a `PathBuf` does.
pub fn lexical_normal(p: &str) -> (r: String)
    ensures
        r@ == lexically_normal(p@),
{
    let segs = segments_of(&chars_of(p));
    let mut kept_segs: Vec<Vec<char>> = Vec::new();
    let mut i: usize = 0;
    assert(seqs(segs@).take(0) =~= Seq::<Seq<char>>::empty());
    assert(seqs(kept_segs@) =~= Seq::<Seq<char>>::empty());
    while i < segs.len()
        invariant
            i <= segs.len(),
            seqs(kept_segs@) == resolve(seqs(segs@).take(i as int)),
        decreases segs.len() - i,
    {
        let ghost prefix = seqs(segs@).take(i + 1);
        assert(prefix.drop_last() =~= seqs(segs@).take(i as int));
        let seg = &segs[i];
        assert(prefix.last() == seg@);
        let is_parent = seg.len() == 2 && seg[0] == '.' && seg[1] == '.';
        assert(is_parent == (seg@ == seq!['.', '.'])) by {
            if seg@ == seq!['.', '.'] {
                assert(seg@.len() == 2);
            }
            if is_parent {
                assert(seg@ =~= seq!['.', '.']);
            }
        }
        if is_parent {
            if kept_segs.len() > 0 {
                let ghost before = kept_segs@;
                kept_segs.pop();
                assert(seqs(kept_segs@) =~= seqs(before).drop_last());
            }
        } else {
            let x = slice_chars(seg, 0, seg.len());
            assert(x@ =~= seg@);
            proof {
                lemma_seqs_push(kept_segs@, x);
            }
            kept_segs.push(x);
        }
        i = i + 1;
    }
    assert(seqs(segs@).take(segs.len() as int) =~= seqs(segs@));
    let mut out: Vec<char> = vec!['/'];
    let mut k: usize = 0;
    assert(seqs(kept_segs@).take(0) =~= Seq::<Seq<char>>::empty());
    while k < kept_segs.len()
        invariant
            k <= kept_segs.len(),
            out@ == seq!['/'] + slash_joined(seqs(kept_segs@).take(k as int)),
        decreases kept_segs.len() - k,
    {
        let ghost prefix = seqs(kept_segs@).take(k + 1);
        assert(prefix.drop_last() =~= seqs(kept_segs@).take(k as int));
        if k > 0 {
            out.push('/');
        }
        out = concat_chars(&out, &kept_segs[k]);
        assert(out@ =~= seq!['/'] + slash_joined(prefix));
        k = k + 1;
    }
    assert(seqs(kept_segs@).take(kept_segs.len() as int) =~= seqs(kept_segs@));
    string_of(&out)
}

} // verus!
