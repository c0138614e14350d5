//! Lists of layer URLs.
//!
//! A request names several layers in one parameter: their URLs joined by
//! commas. A URL may itself hold commas (in a JSON style argument, say), so the
//! list is cut only where a comma is followed by `http`: each URL starts with
//! `http://` or `https://` and runs, on one line, up to the next `,http` or the
//! end of the text.
use crate::text::{chars_of, string_of};
use vstd::prelude::*;

verus! {

/// `pat` occurs in `t` at position `i`.
pub open spec fn occurs_at(t: Seq<char>, i: int, pat: Seq<char>) -> bool {
    0 <= i && i + pat.len() <= t.len() && t.subrange(i, i + pat.len()) == pat
}

/// `http://`
pub open spec fn http_scheme() -> Seq<char> {
    seq!['h', 't', 't', 'p', ':', '/', '/']
}

/// `https://`
pub open spec fn https_scheme() -> Seq<char> {
    seq!['h', 't', 't', 'p', 's', ':', '/', '/']
}

/// `,http`, where one URL of a list ends and the next begins.
pub open spec fn url_separator() -> Seq<char> {
    seq![',', 'h', 't', 't', 'p']
}

/// How many characters a URL takes from position `i` on, after its scheme:
/// as few as possible, up to the next `,http` or the end of the text, none of
/// them a line feed; `None` where a line feed comes first.
pub open spec fn url_body_len(t: Seq<char>, i: int) -> Option<nat>
    decreases t.len() - i,
{
    if i >= t.len() {
        Some(0)
    } else if occurs_at(t, i, url_separator()) {
        Some(0)
    } else if i < 0 || t[i] == '\n' {
        None
    } else {
        match url_body_len(t, i + 1) {
            Some(n) => Some(n + 1),
            None => None,
        }
    }
}

/// The length of the URL that starts at `p`, or `None` where none does.
pub open spec fn url_len_at(t: Seq<char>, p: int) -> Option<nat> {
    if occurs_at(t, p, https_scheme()) {
        match url_body_len(t, p + 8) {
            Some(n) => Some(n + 8),
            None => None,
        }
    } else if occurs_at(t, p, http_scheme()) {
        match url_body_len(t, p + 7) {
            Some(n) => Some(n + 7),
            None => None,
        }
    } else {
        None
    }
}

/// The URLs of `t` from position `p` on: scanning left to right, each URL
/// found is taken and the scan resumes where it ends.
pub open spec fn urls_from(t: Seq<char>, p: int) -> Seq<Seq<char>>
    decreases t.len() - p,
{
    if p < 0 || p >= t.len() {
        seq![]
    } else {
        proof {
            lemma_url_len_at(t, p);
        }
        match url_len_at(t, p) {
            Some(n) => seq![t.subrange(p, p + n)] + urls_from(t, p + n),
            None => urls_from(t, p + 1),
        }
    }
}

/// A URL body stays inside the text.
pub proof fn lemma_url_body_len(t: Seq<char>, i: int)
    requires
        0 <= i <= t.len(),
    ensures
        url_body_len(t, i) matches Some(n) ==> i + n <= t.len(),
    decreases t.len() - i,
{
    if i < t.len() {
        lemma_url_body_len(t, i + 1);
    }
}

/// A URL found at `p` is at least as long as its scheme and stays inside the
/// text.
pub proof fn lemma_url_len_at(t: Seq<char>, p: int)
    requires
        0 <= p,
    ensures
        url_len_at(t, p) matches Some(n) ==> n >= 7 && p + n <= t.len(),
{
    if occurs_at(t, p, https_scheme()) {
        lemma_url_body_len(t, p + 8);
    } else if occurs_at(t, p, http_scheme()) {
        lemma_url_body_len(t, p + 7);
    }
}

/// The URLs of a comma separated list.
pub open spec fn urls_of(t: Seq<char>) -> Seq<Seq<char>> {
    urls_from(t, 0)
}

/// URLs joined by commas.
pub open spec fn join_urls(us: Seq<Seq<char>>) -> Seq<char>
    decreases us.len(),
{
    if us.len() == 0 {
        seq![]
    } else if us.len() == 1 {
        us[0]
    } else {
        us[0] + seq![','] + join_urls(us.drop_first())
    }
}

/// A URL that a list can hold: it starts with `http://` or `https://`, and
/// holds neither a line feed nor `,http`.
pub open spec fn listable_url(u: Seq<char>) -> bool {
    &&& occurs_at(u, 0, http_scheme()) || occurs_at(u, 0, https_scheme())
    &&& !u.contains('\n')
    &&& forall|i: int| !occurs_at(u, i, url_separator())
}

/// `t` holds `,http` at `i` (`i` in bounds).
fn separator_at(v: &Vec<char>, i: usize) -> (r: bool)
    requires
        i <= v.len(),
    ensures
        r == occurs_at(v@, i as int, url_separator()),
{
    if v.len() - i < 5 {
        return false;
    }
    let r = v[i] == ',' && v[i + 1] == 'h' && v[i + 2] == 't' && v[i + 3] == 't' && v[i + 4]
        == 'p';
    assert(r == (v@.subrange(i as int, i as int + 5) =~= url_separator()));
    r
}

/// `t` holds a scheme at `p`: `Some(8)` for `https://`, `Some(7)` for
/// `http://`.
fn scheme_at(v: &Vec<char>, p: usize) -> (r: Option<usize>)
    requires
        p <= v.len(),
    ensures
        r == (if occurs_at(v@, p as int, https_scheme()) {
            Some(8usize)
        } else if occurs_at(v@, p as int, http_scheme()) {
            Some(7usize)
        } else {
            None
        }),
{
    if v.len() - p < 7 {
        return None;
    }
    let http = v[p] == 'h' && v[p + 1] == 't' && v[p + 2] == 't' && v[p + 3] == 'p';
    if !http {
        assert(!(v@.subrange(p as int, p as int + 7) =~= http_scheme()));
        assert(p + 8 > v.len() || !(v@.subrange(p as int, p as int + 8) =~= https_scheme()));
        return None;
    }
    if v.len() - p >= 8 && v[p + 4] == 's' && v[p + 5] == ':' && v[p + 6] == '/' && v[p + 7]
        == '/' {
        assert(v@.subrange(p as int, p as int + 8) =~= https_scheme());
        return Some(8);
    }
    assert(p + 8 > v.len() || !(v@.subrange(p as int, p as int + 8) =~= https_scheme()));
    if v[p + 4] == ':' && v[p + 5] == '/' && v[p + 6] == '/' {
        assert(v@.subrange(p as int, p as int + 7) =~= http_scheme());
        Some(7)
    } else {
        assert(!(v@.subrange(p as int, p as int + 7) =~= http_scheme()));
        None
    }
}

/// How many characters the URL body takes from `i` on.
fn url_body_len_exec(v: &Vec<char>, i: usize) -> (r: Option<usize>)
    requires
        i <= v.len(),
    ensures
        match r {
            Some(n) => url_body_len(v@, i as int) == Some(n as nat) && i + n <= v.len(),
            None => url_body_len(v@, i as int) is None,
        },
{
    let mut j: usize = i;
    while j < v.len() && !separator_at(v, j) && v[j] != '\n'
        invariant
            i <= j <= v.len(),
            url_body_len(v@, i as int) == match url_body_len(v@, j as int) {
                Some(n) => Some(n + (j - i) as nat),
                None => None,
            },
        decreases v.len() - j,
    {
        j += 1;
    }
    if j < v.len() && !separator_at(v, j) {
        None
    } else {
        Some(j - i)
    }
}

/// The URLs of a comma separated list: each starts with `http://` or
/// `https://` and runs up to the next `,http` or the end.
pub fn split_urls(url_str: &String) -> (r: Vec<String>)
    ensures
        r@.map_values(|s: String| s@) == urls_of(url_str@),
{
    let v = chars_of(url_str);
    let mut out: Vec<String> = Vec::new();
    let mut p: usize = 0;
    while p < v.len()
        invariant
            v@ == url_str@,
            p <= v.len(),
            out@.map_values(|s: String| s@) + urls_from(v@, p as int) == urls_of(v@),
        decreases v.len() - p,
    {
        let mut found: Option<usize> = None;
        match scheme_at(&v, p) {
            Some(l) => {
                match url_body_len_exec(&v, p + l) {
                    Some(n) => {
                        found = Some(l + n);
                    },
                    None => {},
                }
            },
            None => {},
        }
        match found {
            Some(n) => {
                assert(url_len_at(v@, p as int) == Some(n as nat));
                let mut piece: Vec<char> = Vec::new();
                let mut i: usize = p;
                while i < p + n
                    invariant
                        p <= i <= p + n <= v.len(),
                        piece@ == v@.subrange(p as int, i as int),
                    decreases p + n - i,
                {
                    piece.push(v[i]);
                    assert(v@.subrange(p as int, i as int + 1) =~= v@.subrange(
                        p as int,
                        i as int,
                    ).push(v@[i as int]));
                    i += 1;
                }
                let s = string_of(&piece);
                let ghost before = out@.map_values(|s: String| s@);
                out.push(s);
                assert(out@.map_values(|s: String| s@) =~= before.push(v@.subrange(
                    p as int,
                    p as int + n,
                )));
                assert(before.push(v@.subrange(p as int, p as int + n)) + urls_from(
                    v@,
                    p as int + n,
                ) =~= before + urls_from(v@, p as int));
                p = p + n;
            },
            None => {
                assert(url_len_at(v@, p as int) is None);
                p += 1;
            },
        }
    }
    assert(out@.map_values(|s: String| s@) + urls_from(v@, p as int) =~= out@.map_values(
        |s: String| s@,
    ));
    out
}

} // verus!

verus! {

/// The body of a URL that is followed by `,http` or by the end of the text,
/// and holds neither a line feed nor `,http`, runs exactly to its end.
proof fn lemma_body_runs_to(t: Seq<char>, i: int, e: int)
    requires
        0 <= i <= e <= t.len(),
        forall|j: int| i <= j < e ==> t[j] != '\n' && !occurs_at(t, j, url_separator()),
        e == t.len() || occurs_at(t, e, url_separator()),
    ensures
        url_body_len(t, i) == Some((e - i) as nat),
    decreases e - i,
{
    if i < e {
        lemma_body_runs_to(t, i + 1, e);
    }
}

/// Scanning a comma joined list of listable URLs from where it starts gives
/// the URLs back.
proof fn lemma_urls_from_joined(t: Seq<char>, p: int, us: Seq<Seq<char>>)
    requires
        0 <= p <= t.len(),
        us.len() >= 1,
        forall|k: int| 0 <= k < us.len() ==> listable_url(#[trigger] us[k]),
        t.subrange(p, t.len() as int) == join_urls(us),
    ensures
        urls_from(t, p) == us,
    decreases us.len(),
{
    let u = us[0];
    assert(listable_url(us[0]));
    let e = p + u.len();
    let rest = join_urls(us.drop_first());
    if us.len() == 1 {
        assert(join_urls(us) == u);
    } else {
        assert(join_urls(us) == u + seq![','] + rest);
    }
    assert(t.subrange(p, t.len() as int).subrange(0, u.len() as int) =~= u);
    assert forall|j: int| 0 <= j < u.len() implies t[p + j] == u[j] by {
        assert(t.subrange(p, t.len() as int)[j] == t[p + j]);
    }
    assert(e <= t.len());
    if us.len() == 1 {
        assert(t.subrange(p, t.len() as int).len() == u.len());
        assert(e == t.len());
    } else {
        assert(listable_url(us[1]));
        assert(us.drop_first()[0] == us[1]);
        let u1 = us[1];
        if us.len() == 2 {
            assert(rest == u1);
        } else {
            assert(rest == u1 + seq![','] + join_urls(us.drop_first().drop_first()));
        }
        assert(rest.subrange(0, 4) =~= u1.subrange(0, 4));
        assert(u1.subrange(0, 4) =~= seq!['h', 't', 't', 'p']) by {
            if occurs_at(u1, 0, http_scheme()) {
                assert(u1.subrange(0, 7).subrange(0, 4) =~= u1.subrange(0, 4));
            } else {
                assert(u1.subrange(0, 8).subrange(0, 4) =~= u1.subrange(0, 4));
            }
        }
        assert forall|j: int| 0 <= j < rest.len() implies t[e + 1 + j] == rest[j] by {
            assert(t.subrange(p, t.len() as int)[u.len() + 1 + j] == t[e + 1 + j]);
        }
        assert(t[e] == ',') by {
            assert(t.subrange(p, t.len() as int)[u.len() as int] == t[e]);
        }
        assert(t.subrange(e, e + 5) =~= url_separator());
        assert(t.subrange(e + 1, t.len() as int) =~= rest);
    }
    let l: int = if occurs_at(u, 0, https_scheme()) {
        8
    } else {
        7
    };
    assert(u.len() >= l);
    assert forall|j: int| p + l <= j < e implies t[j] != '\n' && !occurs_at(
        t,
        j,
        url_separator(),
    ) by {
        assert(t[j] == u[j - p]);
        if t[j] == '\n' {
            assert(u.contains('\n'));
        }
        if occurs_at(t, j, url_separator()) {
            if j + 5 <= e {
                assert(u.subrange(j - p, j - p + 5) =~= t.subrange(j, j + 5));
                assert(occurs_at(u, j - p, url_separator()));
            } else {
                assert(t.subrange(j, j + 5)[e - j] == t[e]);
            }
        }
    }
    lemma_body_runs_to(t, p + l, e);
    if occurs_at(u, 0, https_scheme()) {
        assert(t.subrange(p, p + 8) =~= u.subrange(0, 8));
        assert(occurs_at(t, p, https_scheme()));
    } else {
        assert(t.subrange(p, p + 7) =~= u.subrange(0, 7));
        assert(occurs_at(t, p, http_scheme()));
        if occurs_at(t, p, https_scheme()) {
            assert(t.subrange(p, p + 8)[4] == t[p + 4]);
            assert(t.subrange(p, p + 7)[4] == t[p + 4]);
        }
    }
    assert(url_len_at(t, p) == Some(u.len()));
    assert(t.subrange(p, p + u.len()) =~= u);
    assert(urls_from(t, p) == seq![u] + urls_from(t, e));
    if us.len() == 1 {
        assert(urls_from(t, e) == Seq::<Seq<char>>::empty());
        assert(us =~= seq![u]);
    } else {
        assert(!occurs_at(t, e, https_scheme())) by {
            if occurs_at(t, e, https_scheme()) {
                assert(t.subrange(e, e + 8)[0] == t[e]);
            }
        }
        assert(!occurs_at(t, e, http_scheme())) by {
            if occurs_at(t, e, http_scheme()) {
                assert(t.subrange(e, e + 7)[0] == t[e]);
            }
        }
        assert(urls_from(t, e) == urls_from(t, e + 1));
        lemma_urls_from_joined(t, e + 1, us.drop_first());
        assert(us =~= seq![u] + us.drop_first());
    }
}

/// Cutting a comma joined list of URLs gives the URLs back, provided each
/// starts with `http://` or `https://` and holds neither a line feed nor
/// `,http`.
pub proof fn lemma_split_joined_urls(us: Seq<Seq<char>>)
    requires
        us.len() >= 1,
        forall|k: int| 0 <= k < us.len() ==> listable_url(#[trigger] us[k]),
    ensures
        urls_of(join_urls(us)) == us,
{
    let t = join_urls(us);
    assert(t.subrange(0, t.len() as int) =~= t);
    lemma_urls_from_joined(t, 0, us);
}

} // verus!
