//! The bijective mapping between a page's logical identity — workspace
//! root, page kind, ordered argument list — and the filesystem path of the
//! generated file.
//!
//! With no arguments the path is `<workspace>/.control/<kind>.page`; with
//! arguments it is `<workspace>/.control/<kind>/<arg_1>/.../<arg_n>.page`,
//! where a reserved character (`< > : " \ | ? *`) in an argument is rejected
//! outright and a literal `/` inside an argument is replaced by the
//! placeholder `'` so one argument never becomes two path components.
//! Decoding scans the path's components for the first `.control` marker and
//! exactly inverts the construction.

use vstd::prelude::*;
use vstd::string::StrSliceExecFns;

use crate::pages::kind_name;
use crate::pages::lemma_named_of_kind_name;
use crate::pages::named;
use crate::pages::spec_kind_name;
use crate::pages::spec_named;
use crate::pages::PageKind;
use crate::text::chars_of;
use crate::text::string_of;

verus! {

/// Why a page path could not be produced or read back.
#[derive(Clone, Copy, Debug, PartialEq, Eq, Structural)]
pub enum CodecError {
    /// An argument holds a character of the reserved escape set.
    ReservedCharacter,
    /// The path has no `.control` marker directory after a workspace root.
    MarkerNotFound,
    /// Nothing follows the marker directory.
    MissingKind,
    /// The final component does not carry the `.page` extension.
    MissingExtension,
    /// The kind component names no registered page kind.
    UnknownKind,
}

/// A page's logical identity: where the repository lives, which page, and
/// with which arguments.
#[derive(Debug)]
pub struct PageIdentity {
    pub workspace: String,
    pub kind: PageKind,
    pub args: Vec<String>,
}

/// The mathematical image of a decoded identity.
pub ghost struct DecodedView {
    pub workspace: Seq<char>,
    pub kind: PageKind,
    pub args: Seq<Seq<char>>,
}

/// The reserved escape set: rejected in arguments rather than escaped.
pub open spec fn is_reserved(c: char) -> bool {
    c == '<' || c == '>' || c == ':' || c == '"' || c == '\\' || c == '|' || c == '?' || c == '*'
}

/// The placeholder that stands for a literal `/` inside an argument.
pub open spec fn placeholder() -> char {
    '\''
}

pub open spec fn has_reserved(a: Seq<char>) -> bool {
    exists|i: int| 0 <= i < a.len() && is_reserved(a[i])
}

pub open spec fn any_arg_reserved(args: Seq<Seq<char>>) -> bool {
    exists|i: int| 0 <= i < args.len() && has_reserved(#[trigger] args[i])
}

/// `/` replaced by the placeholder, all else kept.
pub open spec fn subst_arg(a: Seq<char>) -> Seq<char> {
    Seq::new(
        a.len(),
        |i: int|
            if a[i] == '/' {
                placeholder()
            } else {
                a[i]
            },
    )
}

/// The placeholder replaced by `/`, all else kept: the inverse substitution.
pub open spec fn unsubst_arg(a: Seq<char>) -> Seq<char> {
    Seq::new(
        a.len(),
        |i: int|
            if a[i] == placeholder() {
                '/'
            } else {
                a[i]
            },
    )
}

pub open spec fn no_slash(s: Seq<char>) -> bool {
    forall|i: int| 0 <= i < s.len() ==> s[i] != '/'
}

/// The views of a list of argument strings.
pub open spec fn arg_views(args: Seq<String>) -> Seq<Seq<char>> {
    args.map_values(|s: String| s@)
}

/// The argument tail of an encoded path: one `/`-led, substituted component
/// per argument.
pub open spec fn join_args(args: Seq<Seq<char>>) -> Seq<char>
    decreases args.len(),
{
    if args.len() == 0 {
        Seq::empty()
    } else {
        join_args(args.drop_last()) + seq!['/'] + subst_arg(args.last())
    }
}

/// The path that names the page `(w, kind, args)`.
pub open spec fn spec_encode(w: Seq<char>, kind: PageKind, args: Seq<Seq<char>>) -> Seq<char> {
    w + "/.control/"@ + spec_kind_name(kind) + join_args(args) + ".page"@
}

/// Index of the first `/` in `s`, or `s.len()` if there is none.
pub open spec fn find_slash(s: Seq<char>) -> nat
    decreases s.len(),
{
    if s.len() == 0 {
        0
    } else if s[0] == '/' {
        0
    } else {
        1 + find_slash(s.drop_first())
    }
}

/// The components of `p` split on `/`; never empty, and splitting keeps
/// empty components, so joining the components back with `/` restores `p`.
pub open spec fn split_on(p: Seq<char>) -> Seq<Seq<char>>
    decreases p.len(),
{
    let i = find_slash(p) as int;
    if i >= p.len() {
        seq![p]
    } else {
        seq![p.subrange(0, i)] + split_on(p.subrange(i + 1, p.len() as int))
    }
}

/// Components joined back with `/` separators.
pub open spec fn join_comps(cs: Seq<Seq<char>>) -> Seq<char>
    decreases cs.len(),
{
    if cs.len() == 0 {
        Seq::empty()
    } else if cs.len() == 1 {
        cs[0]
    } else {
        cs[0] + seq!['/'] + join_comps(cs.drop_first())
    }
}

pub open spec fn ends_with_page(c: Seq<char>) -> bool {
    c.len() >= 5 && c.subrange(c.len() - 5, c.len() as int) == ".page"@
}

pub open spec fn strip_page(c: Seq<char>) -> Seq<char> {
    c.subrange(0, c.len() - 5)
}

/// Index of the first `.control` component at or after `i`, or `cs.len()`.
pub open spec fn marker_from(cs: Seq<Seq<char>>, i: int) -> int
    decreases cs.len() - i,
{
    if i < 0 || i >= cs.len() {
        cs.len() as int
    } else if cs[i] == ".control"@ {
        i
    } else {
        marker_from(cs, i + 1)
    }
}

/// What decoding a path yields: the exact inverse of the construction, or
/// the error that names what is wrong with the path.
pub open spec fn spec_decode(p: Seq<char>) -> Result<DecodedView, CodecError> {
    let cs = split_on(p);
    let m = marker_from(cs, 0);
    if m >= cs.len() || m == 0 {
        Err(CodecError::MarkerNotFound)
    } else {
        let rest = cs.subrange(m + 1, cs.len() as int);
        if rest.len() == 0 {
            Err(CodecError::MissingKind)
        } else if !ends_with_page(rest.last()) {
            Err(CodecError::MissingExtension)
        } else {
            let kind_comp = if rest.len() == 1 {
                strip_page(rest.last())
            } else {
                rest[0]
            };
            match spec_named(kind_comp) {
                None => Err(CodecError::UnknownKind),
                Some(k) => Ok(
                    DecodedView {
                        workspace: join_comps(cs.subrange(0, m)),
                        kind: k,
                        args: if rest.len() == 1 {
                            Seq::empty()
                        } else {
                            rest.subrange(1, rest.len() - 1).map_values(
                                |c: Seq<char>| unsubst_arg(c),
                            ).push(unsubst_arg(strip_page(rest.last())))
                        },
                    },
                ),
            }
        }
    }
}

proof fn lemma_find_slash_props(s: Seq<char>)
    ensures
        find_slash(s) <= s.len(),
        find_slash(s) < s.len() ==> s[find_slash(s) as int] == '/',
        forall|j: int| 0 <= j < find_slash(s) ==> s[j] != '/',
    decreases s.len(),
{
    if s.len() > 0 && s[0] != '/' {
        lemma_find_slash_props(s.drop_first());
        assert forall|j: int| 0 <= j < find_slash(s) implies s[j] != '/' by {
            if j > 0 {
                assert(s.drop_first()[j - 1] == s[j]);
            }
        }
    }
}

/// How the first slash moves under concatenation.
proof fn lemma_find_slash_append(a: Seq<char>, t: Seq<char>)
    ensures
        find_slash(a) < a.len() ==> find_slash(a + t) == find_slash(a),
        find_slash(a) == a.len() ==> find_slash(a + t) == a.len() + find_slash(t),
    decreases a.len(),
{
    lemma_find_slash_props(a);
    if a.len() == 0 {
        assert(a + t =~= t);
    } else if a[0] == '/' {
        assert((a + t)[0] == '/');
    } else {
        assert((a + t)[0] == a[0]);
        assert((a + t).drop_first() =~= a.drop_first() + t);
        lemma_find_slash_append(a.drop_first(), t);
    }
}

/// A slash-free text is a single component.
proof fn lemma_split_no_slash(a: Seq<char>)
    requires
        no_slash(a),
    ensures
        split_on(a) == seq![a],
{
    lemma_find_slash_props(a);
    if find_slash(a) < a.len() {
        assert(a[find_slash(a) as int] == '/');
    }
}

/// Splitting distributes over a separator.
proof fn lemma_split_concat(a: Seq<char>, b: Seq<char>)
    ensures
        split_on(a + seq!['/'] + b) == split_on(a) + split_on(b),
    decreases a.len(),
{
    let s = a + seq!['/'] + b;
    lemma_find_slash_props(a);
    lemma_find_slash_append(a, seq!['/'] + b);
    assert(a + (seq!['/'] + b) =~= s);
    if find_slash(a) == a.len() {
        assert((seq!['/'] + b)[0] == '/');
        assert(find_slash(seq!['/'] + b) == 0);
        assert(find_slash(s) == a.len());
        assert(s.subrange(0, a.len() as int) =~= a);
        assert(s.subrange(a.len() as int + 1, s.len() as int) =~= b);
        assert(split_on(s) == seq![a] + split_on(b));
        assert(split_on(a) == seq![a]);
    } else {
        let i = find_slash(a) as int;
        assert(find_slash(s) == find_slash(a));
        assert(s.subrange(0, i) =~= a.subrange(0, i));
        assert(s.subrange(i + 1, s.len() as int) =~= a.subrange(i + 1, a.len() as int)
            + seq!['/'] + b);
        lemma_split_concat(a.subrange(i + 1, a.len() as int), b);
        assert(split_on(s) == seq![a.subrange(0, i)] + (split_on(
            a.subrange(i + 1, a.len() as int),
        ) + split_on(b)));
        assert(seq![a.subrange(0, i)] + (split_on(a.subrange(i + 1, a.len() as int)) + split_on(b))
            =~= (seq![a.subrange(0, i)] + split_on(a.subrange(i + 1, a.len() as int))) + split_on(
            b,
        ));
    }
}

proof fn lemma_split_nonempty(p: Seq<char>)
    ensures
        split_on(p).len() >= 1,
{
}

/// Joining the components of `p` restores `p`.
proof fn lemma_join_split(p: Seq<char>)
    ensures
        join_comps(split_on(p)) == p,
    decreases p.len(),
{
    lemma_find_slash_props(p);
    let i = find_slash(p) as int;
    if i >= p.len() {
    } else {
        let c = p.subrange(0, i);
        let rest = p.subrange(i + 1, p.len() as int);
        lemma_split_nonempty(rest);
        lemma_join_split(rest);
        let cs = seq![c] + split_on(rest);
        assert(split_on(p) == cs);
        assert(cs.len() >= 2);
        assert(cs.drop_first() =~= split_on(rest));
        assert(join_comps(cs) == c + seq!['/'] + rest);
        assert(c + seq!['/'] + rest =~= p);
    }
}

/// No component of a split holds a slash.
proof fn lemma_split_components_no_slash(p: Seq<char>)
    ensures
        forall|i: int| 0 <= i < split_on(p).len() ==> no_slash(#[trigger] split_on(p)[i]),
    decreases p.len(),
{
    lemma_find_slash_props(p);
    let i = find_slash(p) as int;
    if i >= p.len() {
        assert(no_slash(p));
    } else {
        let c = p.subrange(0, i);
        let rest = p.subrange(i + 1, p.len() as int);
        assert(no_slash(c));
        lemma_split_components_no_slash(rest);
        assert forall|k: int| 0 <= k < split_on(p).len() implies no_slash(
            #[trigger] split_on(p)[k],
        ) by {
            if k > 0 {
                assert(split_on(p)[k] == split_on(rest)[k - 1]);
            }
        }
    }
}

/// Appending one component to a join.
proof fn lemma_join_snoc(cs: Seq<Seq<char>>, c: Seq<char>)
    ensures
        cs.len() == 0 ==> join_comps(cs.push(c)) == c,
        cs.len() > 0 ==> join_comps(cs.push(c)) == join_comps(cs) + seq!['/'] + c,
    decreases cs.len(),
{
    let cs2 = cs.push(c);
    if cs.len() == 0 {
        assert(cs2.len() == 1);
        assert(join_comps(cs2) == cs2[0]);
    } else if cs.len() == 1 {
        assert(cs2.drop_first() =~= seq![c]);
        assert(join_comps(cs2.drop_first()) == c);
        assert(cs2[0] == cs[0]);
    } else {
        assert(cs2.drop_first() =~= cs.drop_first().push(c));
        lemma_join_snoc(cs.drop_first(), c);
        assert(cs2[0] == cs[0]);
        assert(cs[0] + seq!['/'] + (join_comps(cs.drop_first()) + seq!['/'] + c) =~= (cs[0]
            + seq!['/'] + join_comps(cs.drop_first())) + seq!['/'] + c);
    }
}

fn is_reserved_char(c: char) -> (r: bool)
    ensures
        r == is_reserved(c),
{
    c == '<' || c == '>' || c == ':' || c == '"' || c == '\\' || c == '|' || c == '?' || c == '*'
}

fn contains_reserved(s: &str) -> (r: bool)
    ensures
        r == has_reserved(s@),
{
    let len = s.unicode_len();
    let mut i: usize = 0;
    while i < len
        invariant
            i <= len,
            len as nat == s@.len(),
            forall|j: int| 0 <= j < i ==> !is_reserved(s@[j]),
        decreases len - i,
    {
        if is_reserved_char(s.get_char(i)) {
            return true;
        }
        i = i + 1;
    }
    false
}

/// Appends the characters of `s` to `v`.
fn extend_chars(v: &mut Vec<char>, s: &str)
    ensures
        final(v)@ == old(v)@ + s@,
{
    let len = s.unicode_len();
    let mut i: usize = 0;
    while i < len
        invariant
            i <= len,
            len as nat == s@.len(),
            v@ =~= old(v)@ + s@.subrange(0, i as int),
        decreases len - i,
    {
        v.push(s.get_char(i));
        i = i + 1;
    }
    proof {
        assert(old(v)@ + s@.subrange(0, len as int) =~= old(v)@ + s@);
    }
}

/// Appends the characters of `s` with `/` replaced by the placeholder.
fn extend_subst(v: &mut Vec<char>, s: &str)
    ensures
        final(v)@ == old(v)@ + subst_arg(s@),
{
    let len = s.unicode_len();
    let mut i: usize = 0;
    while i < len
        invariant
            i <= len,
            len as nat == s@.len(),
            v@ =~= old(v)@ + subst_arg(s@).subrange(0, i as int),
        decreases len - i,
    {
        let c = s.get_char(i);
        if c == '/' {
            v.push('\'');
        } else {
            v.push(c);
        }
        i = i + 1;
    }
    proof {
        assert(old(v)@ + subst_arg(s@).subrange(0, len as int) =~= old(v)@ + subst_arg(s@));
    }
}

/// Builds the path that names the page `(workspace, kind, args)`, rejecting
/// any argument that holds a reserved-escape-set character.
pub fn encode(workspace: &str, kind: PageKind, args: &Vec<String>) -> (r: Result<
    String,
    CodecError,
>)
    ensures
        any_arg_reserved(arg_views(args@)) ==> r == Err::<String, CodecError>(
            CodecError::ReservedCharacter,
        ),
        !any_arg_reserved(arg_views(args@)) ==> (r matches Ok(s) && s@ == spec_encode(
            workspace@,
            kind,
            arg_views(args@),
        )),
{
    let mut ai: usize = 0;
    while ai < args.len()
        invariant
            ai <= args@.len(),
            forall|j: int| 0 <= j < ai ==> !has_reserved(#[trigger] arg_views(args@)[j]),
        decreases args@.len() - ai,
    {
        if contains_reserved(args[ai].as_str()) {
            assert(has_reserved(arg_views(args@)[ai as int]));
            return Err(CodecError::ReservedCharacter);
        }
        ai = ai + 1;
    }
    let mut out: Vec<char> = chars_of(workspace);
    extend_chars(&mut out, "/.control/");
    let kn = kind_name(kind);
    extend_chars(&mut out, kn.as_str());
    let ghost views = arg_views(args@);
    proof {
        assert(join_args(views.subrange(0, 0)) =~= Seq::<char>::empty());
        assert(out@ =~= workspace@ + "/.control/"@ + spec_kind_name(kind) + join_args(
            views.subrange(0, 0),
        ));
    }
    let mut ai: usize = 0;
    while ai < args.len()
        invariant
            ai <= args@.len(),
            views == arg_views(args@),
            out@ == workspace@ + "/.control/"@ + spec_kind_name(kind) + join_args(
                views.subrange(0, ai as int),
            ),
        decreases args@.len() - ai,
    {
        out.push('/');
        extend_subst(&mut out, args[ai].as_str());
        proof {
            let pre = views.subrange(0, ai as int);
            let cur = views.subrange(0, ai + 1);
            assert(cur.drop_last() =~= pre);
            assert(cur.last() == views[ai as int]);
            assert(views[ai as int] == args@[ai as int]@);
            assert(out@ =~= workspace@ + "/.control/"@ + spec_kind_name(kind) + join_args(cur));
        }
        ai = ai + 1;
    }
    extend_chars(&mut out, ".page");
    proof {
        assert(views.subrange(0, views.len() as int) =~= views);
        assert(out@ =~= spec_encode(workspace@, kind, views));
    }
    Ok(string_of(&out))
}

/// The views of split components held as vectors.
pub open spec fn comp_views(cs: Seq<Vec<char>>) -> Seq<Seq<char>> {
    cs.map_values(|v: Vec<char>| v@)
}

/// Splits a path into its `/`-separated components.
fn split_path(p: &Vec<char>) -> (r: Vec<Vec<char>>)
    ensures
        comp_views(r@) == split_on(p@),
{
    let mut done: Vec<Vec<char>> = Vec::new();
    let mut cur: Vec<char> = Vec::new();
    let mut i: usize = 0;
    proof {
        assert(cur@ + p@.subrange(0, p@.len() as int) =~= p@);
        assert(comp_views(done@) =~= Seq::<Seq<char>>::empty());
        assert(Seq::<Seq<char>>::empty() + split_on(p@) =~= split_on(p@));
    }
    while i < p.len()
        invariant
            i <= p@.len(),
            no_slash(cur@),
            split_on(p@) == comp_views(done@) + split_on(
                cur@ + p@.subrange(i as int, p@.len() as int),
            ),
        decreases p@.len() - i,
    {
        let c = p[i];
        let ghost rest0 = cur@ + p@.subrange(i as int, p@.len() as int);
        if c == '/' {
            proof {
                assert(rest0 =~= cur@ + seq!['/'] + p@.subrange(i + 1, p@.len() as int));
                lemma_split_concat(cur@, p@.subrange(i + 1, p@.len() as int));
                lemma_split_no_slash(cur@);
            }
            done.push(cur);
            cur = Vec::new();
            proof {
                assert(comp_views(done@) =~= comp_views(old_done_view(done@)) + seq![
                    done@.last()@,
                ]);
            }
        } else {
            cur.push(c);
            proof {
                assert(cur@ + p@.subrange(i + 1, p@.len() as int) =~= rest0);
            }
        }
        i = i + 1;
    }
    proof {
        assert(cur@ + p@.subrange(p@.len() as int, p@.len() as int) =~= cur@);
        lemma_split_no_slash(cur@);
    }
    done.push(cur);
    proof {
        assert(comp_views(done@) =~= split_on(p@));
    }
    done
}

/// Spec helper naming a sequence with its last element dropped.
pub open spec fn old_done_view(s: Seq<Vec<char>>) -> Seq<Vec<char>> {
    s.drop_last()
}

/// Whether a component's characters equal a literal's.
fn comp_eq_str(c: &Vec<char>, s: &str) -> (r: bool)
    ensures
        r == (c@ == s@),
{
    let len = s.unicode_len();
    if c.len() != len {
        return false;
    }
    let mut i: usize = 0;
    while i < len
        invariant
            i <= len,
            len as nat == s@.len(),
            c@.len() == s@.len(),
            forall|j: int| 0 <= j < i ==> c@[j] == s@[j],
        decreases len - i,
    {
        if c[i] != s.get_char(i) {
            assert(c@[i as int] != s@[i as int]);
            return false;
        }
        i = i + 1;
    }
    proof {
        assert(c@ =~= s@);
    }
    true
}

/// Whether a component carries the `.page` extension.
fn ends_with_page_exec(c: &Vec<char>) -> (r: bool)
    ensures
        r == ends_with_page(c@),
{
    proof {
        reveal_strlit(".page");
    }
    let n = c.len();
    if n < 5 {
        return false;
    }
    let ok = c[n - 5] == '.' && c[n - 4] == 'p' && c[n - 3] == 'a' && c[n - 2] == 'g' && c[n - 1]
        == 'e';
    proof {
        let tail = c@.subrange(c@.len() - 5, c@.len() as int);
        assert(".page"@.len() == 5);
        if ok {
            assert(tail =~= ".page"@);
        } else {
            assert(tail != ".page"@) by {
                if tail == ".page"@ {
                    assert(c@[c@.len() - 5] == tail[0]);
                    assert(c@[c@.len() - 4] == tail[1]);
                    assert(c@[c@.len() - 3] == tail[2]);
                    assert(c@[c@.len() - 2] == tail[3]);
                    assert(c@[c@.len() - 1] == tail[4]);
                }
            }
        }
    }
    ok
}

/// The first `k` characters of a component, copied.
fn vec_prefix(c: &Vec<char>, k: usize) -> (r: Vec<char>)
    requires
        k <= c@.len(),
    ensures
        r@ == c@.subrange(0, k as int),
{
    let mut r: Vec<char> = Vec::new();
    let mut i: usize = 0;
    while i < k
        invariant
            i <= k,
            k <= c@.len(),
            r@ =~= c@.subrange(0, i as int),
        decreases k - i,
    {
        r.push(c[i]);
        i = i + 1;
    }
    r
}

/// The component with every placeholder turned back into `/`.
fn unsubst_vec(c: &Vec<char>) -> (r: Vec<char>)
    ensures
        r@ == unsubst_arg(c@),
{
    let mut r: Vec<char> = Vec::new();
    let mut i: usize = 0;
    while i < c.len()
        invariant
            i <= c@.len(),
            r@ =~= unsubst_arg(c@).subrange(0, i as int),
        decreases c@.len() - i,
    {
        let ch = c[i];
        if ch == '\'' {
            r.push('/');
        } else {
            r.push(ch);
        }
        i = i + 1;
    }
    proof {
        assert(unsubst_arg(c@).subrange(0, c@.len() as int) =~= unsubst_arg(c@));
    }
    r
}

/// The first `m` components joined back with `/` separators.
fn join_components(comps: &Vec<Vec<char>>, m: usize) -> (r: Vec<char>)
    requires
        m <= comps@.len(),
    ensures
        r@ == join_comps(comp_views(comps@).subrange(0, m as int)),
{
    let ghost cv = comp_views(comps@);
    let mut out: Vec<char> = Vec::new();
    let mut i: usize = 0;
    proof {
        assert(cv.subrange(0, 0) =~= Seq::<Seq<char>>::empty());
    }
    while i < m
        invariant
            i <= m,
            m <= comps@.len(),
            cv == comp_views(comps@),
            out@ == join_comps(cv.subrange(0, i as int)),
        decreases m - i,
    {
        let ghost pre = cv.subrange(0, i as int);
        if i > 0 {
            out.push('/');
        }
        let ghost mid = out@;
        let comp = &comps[i];
        let mut j: usize = 0;
        while j < comp.len()
            invariant
                j <= comp@.len(),
                out@ =~= mid + comp@.subrange(0, j as int),
            decreases comp@.len() - j,
        {
            out.push(comp[j]);
            j = j + 1;
        }
        proof {
            assert(mid + comp@.subrange(0, comp@.len() as int) =~= mid + comp@);
            lemma_join_snoc(pre, cv[i as int]);
            assert(cv.subrange(0, i as int + 1) =~= pre.push(cv[i as int]));
            assert(cv[i as int] == comp@);
            if i == 0 {
                assert(out@ =~= comp@);
            } else {
                assert(out@ =~= join_comps(pre) + seq!['/'] + comp@);
            }
        }
        i = i + 1;
    }
    out
}

/// Reads a page's identity back from its path: the exact inverse of
/// [`encode`]. Fails when the `.control` marker is absent or leads the path,
/// when no component follows the marker, when the final component lacks the
/// `.page` extension, or when the kind component names no registered page.
pub fn decode(path: &str) -> (r: Result<PageIdentity, CodecError>)
    ensures
        match r {
            Ok(id) => spec_decode(path@) == Ok::<DecodedView, CodecError>(
                DecodedView { workspace: id.workspace@, kind: id.kind, args: arg_views(id.args@) },
            ),
            Err(e) => spec_decode(path@) == Err::<DecodedView, CodecError>(e),
        },
{
    let v = chars_of(path);
    let comps = split_path(&v);
    let ghost cs = split_on(path@);
    let total = comps.len();
    let mut m: usize = 0;
    while m < total
        invariant_except_break
            m <= total,
            total == comps@.len(),
            comp_views(comps@) == cs,
            marker_from(cs, 0) == marker_from(cs, m as int),
        ensures
            m <= total,
            total == comps@.len(),
            comp_views(comps@) == cs,
            marker_from(cs, 0) == if m < total {
                m as int
            } else {
                cs.len() as int
            },
        decreases total - m,
    {
        if comp_eq_str(&comps[m], ".control") {
            proof {
                assert(cs[m as int] == ".control"@);
            }
            break;
        }
        proof {
            assert(cs[m as int] != ".control"@);
        }
        m = m + 1;
    }
    if m == total || m == 0 {
        return Err(CodecError::MarkerNotFound);
    }
    let ghost mm = m as int;
    let ghost rest = cs.subrange(mm + 1, cs.len() as int);
    if total - m - 1 == 0 {
        proof {
            assert(rest.len() == 0);
        }
        return Err(CodecError::MissingKind);
    }
    let rest_len = total - m - 1;
    proof {
        assert(rest.len() == rest_len as int);
        assert(rest.last() == cs[total - 1]);
    }
    let last = &comps[total - 1];
    if !ends_with_page_exec(last) {
        return Err(CodecError::MissingExtension);
    }
    let kind_comp: Vec<char> = if rest_len == 1 {
        vec_prefix(last, last.len() - 5)
    } else {
        vec_prefix(&comps[m + 1], comps[m + 1].len())
    };
    proof {
        if rest_len == 1 {
            assert(kind_comp@ == strip_page(rest.last()));
        } else {
            assert(rest[0] == cs[mm + 1]);
            assert(comps@[mm + 1]@.subrange(0, comps@[mm + 1]@.len() as int) =~= comps@[mm + 1]@);
            assert(kind_comp@ == rest[0]);
        }
    }
    let kc_string = string_of(&kind_comp);
    let k = match named(kc_string.as_str()) {
        None => {
            return Err(CodecError::UnknownKind);
        },
        Some(k) => k,
    };
    let workspace = string_of(&join_components(&comps, m));
    let mut args: Vec<String> = Vec::new();
    if rest_len > 1 {
        let ghost middle = rest.subrange(1, rest.len() - 1).map_values(
            |c: Seq<char>| unsubst_arg(c),
        );
        let mut j = m + 2;
        proof {
            assert(arg_views(args@) =~= middle.subrange(0, 0));
        }
        while j < total - 1
            invariant
                m + 2 <= j <= total - 1,
                total == comps@.len(),
                comp_views(comps@) == cs,
                m + 2 <= total,
                mm == m as int,
                rest == cs.subrange(mm + 1, cs.len() as int),
                middle == rest.subrange(1, rest.len() - 1).map_values(
                    |c: Seq<char>| unsubst_arg(c),
                ),
                arg_views(args@) == middle.subrange(0, j - m - 2),
            decreases total - 1 - j,
        {
            let a = unsubst_vec(&comps[j]);
            let s = string_of(&a);
            args.push(s);
            proof {
                assert(rest[j - m - 1] == cs[j as int]);
                assert(middle[j - m - 2] == unsubst_arg(cs[j as int]));
                assert(arg_views(args@) =~= middle.subrange(0, j - m - 2).push(
                    unsubst_arg(cs[j as int]),
                ));
                assert(middle.subrange(0, j - m - 1) =~= middle.subrange(0, j - m - 2).push(
                    middle[j - m - 2],
                ));
            }
            j = j + 1;
        }
        let stripped = vec_prefix(last, last.len() - 5);
        let final_arg = unsubst_vec(&stripped);
        let s = string_of(&final_arg);
        args.push(s);
        proof {
            assert(middle.subrange(0, middle.len() as int) =~= middle);
            assert(arg_views(args@) =~= middle.push(unsubst_arg(strip_page(rest.last()))));
        }
    }
    let id = PageIdentity { workspace, kind: k, args };
    proof {
        if rest_len == 1 {
            assert(arg_views(id.args@) =~= Seq::<Seq<char>>::empty());
        }
    }
    Ok(id)
}

/// Whether the placeholder character occurs in `a`.
pub open spec fn has_placeholder(a: Seq<char>) -> bool {
    exists|i: int| 0 <= i < a.len() && a[i] == placeholder()
}

proof fn lemma_subst_no_slash(a: Seq<char>)
    ensures
        no_slash(subst_arg(a)),
{
}

proof fn lemma_unsubst_subst(a: Seq<char>)
    requires
        !has_placeholder(a),
    ensures
        unsubst_arg(subst_arg(a)) == a,
{
    assert forall|i: int| 0 <= i < a.len() implies unsubst_arg(subst_arg(a))[i] == a[i] by {
        if a[i] == placeholder() {
            assert(false);
        }
    }
    assert(unsubst_arg(subst_arg(a)) =~= a);
}

/// How an encoded argument tail splits: the slash-free prefix, one
/// substituted component per argument, the suffix glued to the last.
proof fn lemma_split_with_args(x: Seq<char>, args: Seq<Seq<char>>, y: Seq<char>)
    requires
        no_slash(x),
        no_slash(y),
        args.len() >= 1,
    ensures
        split_on(x + join_args(args) + y) == seq![x] + args.subrange(0, args.len() - 1).map_values(
            |a: Seq<char>| subst_arg(a),
        ) + seq![subst_arg(args.last()) + y],
    decreases args.len(),
{
    let n = args.len() as int;
    if n == 1 {
        assert(join_args(args.drop_last()) =~= Seq::<char>::empty());
        assert(x + join_args(args) + y =~= x + seq!['/'] + (subst_arg(args.last()) + y));
        lemma_split_concat(x, subst_arg(args.last()) + y);
        lemma_split_no_slash(x);
        lemma_subst_no_slash(args.last());
        assert(no_slash(subst_arg(args.last()) + y)) by {
            assert forall|i: int|
                0 <= i < (subst_arg(args.last()) + y).len() implies (subst_arg(args.last())
                + y)[i] != '/' by {
                if i < subst_arg(args.last()).len() {
                } else {
                }
            }
        }
        lemma_split_no_slash(subst_arg(args.last()) + y);
        assert(args.subrange(0, 0).map_values(|a: Seq<char>| subst_arg(a))
            =~= Seq::<Seq<char>>::empty());
        assert(split_on(x + join_args(args) + y) =~= seq![x] + args.subrange(0, 0).map_values(
            |a: Seq<char>| subst_arg(a),
        ) + seq![subst_arg(args.last()) + y]);
    } else {
        let d = args.drop_last();
        let a_last = args.last();
        let whole = x + join_args(args) + y;
        assert(whole =~= (x + join_args(d) + Seq::<char>::empty()) + seq!['/'] + (subst_arg(a_last)
            + y));
        lemma_split_concat(x + join_args(d) + Seq::<char>::empty(), subst_arg(a_last) + y);
        lemma_split_with_args(x, d, Seq::<char>::empty());
        lemma_subst_no_slash(a_last);
        assert(no_slash(subst_arg(a_last) + y)) by {
            assert forall|i: int|
                0 <= i < (subst_arg(a_last) + y).len() implies (subst_arg(a_last) + y)[i]
                != '/' by {
                if i < subst_arg(a_last).len() {
                } else {
                }
            }
        }
        lemma_split_no_slash(subst_arg(a_last) + y);
        assert(subst_arg(d.last()) + Seq::<char>::empty() =~= subst_arg(d.last()));
        let map_f = |a: Seq<char>| subst_arg(a);
        assert(split_on(whole) =~= (seq![x] + d.subrange(0, n - 2).map_values(map_f) + seq![
            subst_arg(d.last()),
        ]) + seq![subst_arg(a_last) + y]);
        let lhs = args.subrange(0, n - 1).map_values(map_f);
        let rhs = d.subrange(0, n - 2).map_values(map_f) + seq![subst_arg(d.last())];
        assert(lhs =~= rhs) by {
            assert forall|i: int| 0 <= i < n - 1 implies #[trigger] lhs[i] == rhs[i] by {
                if i < n - 2 {
                    assert(d.subrange(0, n - 2)[i] == args[i]);
                    assert(args.subrange(0, n - 1)[i] == args[i]);
                } else {
                    assert(d.last() == args[n - 2]);
                    assert(args.subrange(0, n - 1)[i] == args[n - 2]);
                }
            }
        }
        assert(split_on(whole) =~= seq![x] + args.subrange(0, n - 1).map_values(map_f) + seq![
            subst_arg(a_last) + y,
        ]);
    }
}

proof fn lemma_marker_props(cs: Seq<Seq<char>>, i: int)
    requires
        0 <= i <= cs.len(),
    ensures
        i <= marker_from(cs, i) <= cs.len(),
        marker_from(cs, i) < cs.len() ==> cs[marker_from(cs, i)] == ".control"@,
        forall|j: int| i <= j < marker_from(cs, i) ==> cs[j] != ".control"@,
    decreases cs.len() - i,
{
    if i < cs.len() && cs[i] != ".control"@ {
        lemma_marker_props(cs, i + 1);
    }
}

/// Joining distributes over concatenation of non-empty component lists.
proof fn lemma_join_concat(a: Seq<Seq<char>>, b: Seq<Seq<char>>)
    requires
        a.len() >= 1,
        b.len() >= 1,
    ensures
        join_comps(a + b) == join_comps(a) + seq!['/'] + join_comps(b),
    decreases b.len(),
{
    if b.len() == 1 {
        assert(a + b =~= a.push(b[0]));
        lemma_join_snoc(a, b[0]);
        assert(join_comps(b) == b[0]);
    } else {
        let d = b.drop_last();
        assert(a + b =~= (a + d).push(b.last()));
        lemma_join_snoc(a + d, b.last());
        lemma_join_concat(a, d);
        lemma_join_snoc(d, b.last());
        assert(d.push(b.last()) =~= b);
        assert((join_comps(a) + seq!['/'] + join_comps(d)) + seq!['/'] + b.last() =~= join_comps(
            a,
        ) + seq!['/'] + (join_comps(d) + seq!['/'] + b.last()));
    }
}

/// A name the registry resolves is that kind's registered name.
proof fn lemma_named_inverse(name: Seq<char>, k: PageKind)
    requires
        spec_named(name) == Some(k),
    ensures
        name == spec_kind_name(k),
{
}

proof fn lemma_marker_scan(cs: Seq<Seq<char>>, i: int, k: int)
    requires
        0 <= i <= k < cs.len(),
        cs[k] == ".control"@,
        forall|j: int| 0 <= j < k ==> cs[j] != ".control"@,
    ensures
        marker_from(cs, i) == k,
    decreases k - i,
{
    if i < k {
        lemma_marker_scan(cs, i + 1, k);
    }
}

/// The marker and extension literals, decomposed.
proof fn lemma_marker_literal()
    ensures
        "/.control/"@ =~= seq!['/'] + ".control"@ + seq!['/'],
        no_slash(".control"@),
        ".page"@.len() == 5,
        no_slash(".page"@),
{
    reveal_strlit("/.control/");
    reveal_strlit(".control");
    reveal_strlit(".page");
    assert(("/.control/"@).len() == 10);
    assert((".control"@).len() == 8);
    assert forall|i: int| 0 <= i < 10 implies ("/.control/"@)[i] == (seq!['/'] + ".control"@
        + seq!['/'])[i] by {}
}

proof fn lemma_kind_name_no_slash(kind: PageKind)
    ensures
        no_slash(spec_kind_name(kind)),
        !has_placeholder(spec_kind_name(kind))  // names hold no placeholder either
        ,
{
    reveal_strlit("status");
    reveal_strlit("split");
    reveal_strlit("annotate");
    reveal_strlit("commit");
    match kind {
        PageKind::Status => {
            assert(("status"@).len() == 6);
        },
        PageKind::Split => {
            assert(("split"@).len() == 5);
        },
        PageKind::Annotate => {
            assert(("annotate"@).len() == 8);
        },
        PageKind::Commit => {
            assert(("commit"@).len() == 6);
        },
    }
}

proof fn lemma_subst_unsubst(c: Seq<char>)
    requires
        no_slash(c),
    ensures
        subst_arg(unsubst_arg(c)) == c,
{
    assert forall|i: int| 0 <= i < c.len() implies subst_arg(unsubst_arg(c))[i] == c[i] by {}
    assert(subst_arg(unsubst_arg(c)) =~= c);
}

/// Joining a kind component with encoded argument components is the same as
/// appending the re-encoded argument tail.
proof fn lemma_join_with_mids(k: Seq<char>, mids: Seq<Seq<char>>)
    requires
        forall|i: int| 0 <= i < mids.len() ==> no_slash(#[trigger] mids[i]),
    ensures
        join_comps(seq![k] + mids) == k + join_args(
            mids.map_values(|c: Seq<char>| unsubst_arg(c)),
        ),
    decreases mids.len(),
{
    let margs = mids.map_values(|c: Seq<char>| unsubst_arg(c));
    if mids.len() == 0 {
        assert(seq![k] + mids =~= seq![k]);
        assert(join_comps(seq![k]) == k);
        assert(margs =~= Seq::<Seq<char>>::empty());
        assert(k + join_args(margs) =~= k);
    } else {
        let d = mids.drop_last();
        assert(forall|i: int| 0 <= i < d.len() ==> #[trigger] d[i] == mids[i]);
        lemma_join_with_mids(k, d);
        assert(seq![k] + mids =~= (seq![k] + d).push(mids.last()));
        lemma_join_snoc(seq![k] + d, mids.last());
        let dargs = d.map_values(|c: Seq<char>| unsubst_arg(c));
        assert(margs.drop_last() =~= dargs);
        assert(margs.last() == unsubst_arg(mids.last()));
        lemma_subst_unsubst(mids.last());
        assert(join_args(margs) == join_args(dargs) + seq!['/'] + mids.last());
        assert((k + join_args(dargs)) + seq!['/'] + mids.last() =~= k + (join_args(dargs)
            + seq!['/'] + mids.last()));
    }
}

/// Law: decoding is sound — a path that decodes to an identity is exactly
/// that identity's encoded path. Together with the round-trip law this
/// makes the codec a bijection between decodable paths and the identities
/// they name.
pub proof fn lemma_decode_encode(p: Seq<char>, id: DecodedView)
    requires
        spec_decode(p) == Ok::<DecodedView, CodecError>(id),
    ensures
        spec_encode(id.workspace, id.kind, id.args) == p,
{
    let cs = split_on(p);
    let m = marker_from(cs, 0);
    lemma_marker_props(cs, 0);
    let rest = cs.subrange(m + 1, cs.len() as int);
    let lastc = rest.last();
    lemma_split_components_no_slash(p);
    lemma_join_split(p);
    lemma_marker_literal();
    let before = cs.subrange(0, m);
    assert(cs =~= before + (seq![".control"@] + rest));
    lemma_join_concat(before, seq![".control"@] + rest);
    lemma_join_concat(seq![".control"@], rest);
    assert(join_comps(seq![".control"@]) == ".control"@);
    let w = join_comps(before);
    assert(p == w + seq!['/'] + (".control"@ + seq!['/'] + join_comps(rest)));
    let kind_comp = if rest.len() == 1 {
        strip_page(lastc)
    } else {
        rest[0]
    };
    lemma_named_inverse(kind_comp, id.kind);
    let kname = spec_kind_name(id.kind);
    assert(no_slash(lastc)) by {
        assert(lastc == cs[cs.len() - 1]);
    }
    assert(lastc =~= strip_page(lastc) + ".page"@);
    if rest.len() == 1 {
        assert(join_comps(rest) == lastc);
        assert(id.args =~= Seq::<Seq<char>>::empty());
        assert(join_args(id.args) =~= Seq::<char>::empty());
        assert(kname + join_args(id.args) + ".page"@ =~= lastc);
        assert(spec_encode(id.workspace, id.kind, id.args) =~= w + seq!['/'] + (".control"@
            + seq!['/'] + lastc));
    } else {
        let n = rest.len() as int;
        let mids = rest.subrange(1, n - 1);
        assert(forall|i: int| 0 <= i < mids.len() ==> #[trigger] mids[i] == cs[m + 2 + i]);
        assert(forall|i: int| 0 <= i < mids.len() ==> no_slash(#[trigger] mids[i]));
        lemma_join_with_mids(kname, mids);
        assert(rest =~= (seq![kname] + mids).push(lastc));
        lemma_join_snoc(seq![kname] + mids, lastc);
        let margs = mids.map_values(|c: Seq<char>| unsubst_arg(c));
        assert(join_comps(rest) == (kname + join_args(margs)) + seq!['/'] + lastc);
        assert(id.args == margs.push(unsubst_arg(strip_page(lastc))));
        assert(no_slash(strip_page(lastc))) by {
            assert(forall|i: int|
                0 <= i < strip_page(lastc).len() ==> strip_page(lastc)[i] == lastc[i]);
        }
        lemma_subst_unsubst(strip_page(lastc));
        assert(id.args.drop_last() =~= margs);
        assert(join_args(id.args) == join_args(margs) + seq!['/'] + strip_page(lastc));
        assert(kname + join_args(id.args) + ".page"@ =~= (kname + join_args(margs)) + seq!['/']
            + lastc);
        assert(spec_encode(id.workspace, id.kind, id.args) =~= w + seq!['/'] + (".control"@
            + seq!['/'] + join_comps(rest)));
    }
}

/// Law: encoding any page identity whose arguments hold neither a
/// reserved-escape-set character nor the placeholder, and whose workspace
/// path has no `.control` component, and then decoding the resulting path,
/// returns exactly the identity that was encoded.
pub proof fn lemma_codec_round_trip(w: Seq<char>, kind: PageKind, args: Seq<Seq<char>>)
    requires
        forall|i: int| 0 <= i < args.len() ==> !has_reserved(#[trigger] args[i]),
        forall|i: int| 0 <= i < args.len() ==> !has_placeholder(#[trigger] args[i]),
        forall|i: int| 0 <= i < split_on(w).len() ==> (#[trigger] split_on(w)[i]) != ".control"@,
    ensures
        spec_decode(spec_encode(w, kind, args)) == Ok::<DecodedView, CodecError>(
            DecodedView { workspace: w, kind, args },
        ),
{
    let kname = spec_kind_name(kind);
    let p = spec_encode(w, kind, args);
    let tail = kname + join_args(args) + ".page"@;
    lemma_marker_literal();
    lemma_kind_name_no_slash(kind);
    lemma_named_of_kind_name(kind);
    assert(p =~= w + seq!['/'] + (".control"@ + seq!['/'] + tail));
    lemma_split_concat(w, ".control"@ + seq!['/'] + tail);
    assert(".control"@ + seq!['/'] + tail =~= ".control"@ + seq!['/'] + tail);
    lemma_split_concat(".control"@, tail);
    lemma_split_no_slash(".control"@);
    let t = split_on(tail);
    let cs = split_on(p);
    let sw = split_on(w);
    assert(cs == sw + (seq![".control"@] + t));
    let m = sw.len() as int;
    lemma_split_nonempty(w);
    assert(cs[m] == (seq![".control"@] + t)[0]);
    lemma_marker_scan(cs, 0, m);
    assert(marker_from(cs, 0) == m);
    assert(m >= 1);
    assert(cs.subrange(0, m) =~= sw);
    lemma_join_split(w);
    let rest = cs.subrange(m + 1, cs.len() as int);
    assert(rest =~= t);
    if args.len() == 0 {
        assert(join_args(args) =~= Seq::<char>::empty());
        assert(tail =~= kname + ".page"@);
        assert(no_slash(tail)) by {
            assert forall|i: int| 0 <= i < tail.len() implies tail[i] != '/' by {
                if i < kname.len() {
                } else {
                }
            }
        }
        lemma_split_no_slash(tail);
        assert(rest.len() == 1);
        assert(rest.last() == tail);
        assert(ends_with_page(tail)) by {
            assert(tail.subrange(tail.len() - 5, tail.len() as int) =~= ".page"@);
        }
        assert(strip_page(tail) =~= kname);
        assert(spec_named(strip_page(rest.last())) == Some(kind));
        assert(spec_decode(p) == Ok::<DecodedView, CodecError>(
            DecodedView { workspace: w, kind, args: Seq::empty() },
        ));
        assert(args =~= Seq::<Seq<char>>::empty());
    } else {
        let n = args.len() as int;
        lemma_split_with_args(kname, args, ".page"@);
        let map_f = |a: Seq<char>| subst_arg(a);
        assert(tail =~= kname + join_args(args) + ".page"@);
        assert(t == seq![kname] + args.subrange(0, n - 1).map_values(map_f) + seq![subst_arg(
            args.last(),
        ) + ".page"@]);
        assert(rest.len() == n + 1);
        assert(rest[0] == kname);
        let lastc = subst_arg(args.last()) + ".page"@;
        assert(rest.last() == lastc);
        assert(ends_with_page(lastc)) by {
            assert(lastc.subrange(lastc.len() - 5, lastc.len() as int) =~= ".page"@);
        }
        assert(strip_page(lastc) =~= subst_arg(args.last()));
        assert(spec_named(rest[0]) == Some(kind));
        lemma_unsubst_subst(args.last());
        let mid = rest.subrange(1, rest.len() - 1);
        assert(mid =~= args.subrange(0, n - 1).map_values(map_f));
        let decoded_args = mid.map_values(|c: Seq<char>| unsubst_arg(c)).push(
            unsubst_arg(strip_page(rest.last())),
        );
        assert(decoded_args =~= args) by {
            assert forall|i: int| 0 <= i < n implies decoded_args[i] == args[i] by {
                if i < n - 1 {
                    assert(mid[i] == subst_arg(args.subrange(0, n - 1)[i]));
                    assert(args.subrange(0, n - 1)[i] == args[i]);
                    lemma_unsubst_subst(args[i]);
                } else {
                    assert(unsubst_arg(strip_page(rest.last())) == unsubst_arg(
                        subst_arg(args.last()),
                    ));
                }
            }
        }
        assert(spec_decode(p) == Ok::<DecodedView, CodecError>(
            DecodedView { workspace: w, kind, args },
        ));
    }
}

} // verus!
