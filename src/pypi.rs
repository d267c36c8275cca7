//! Package-index source: a root index page links to one index page per
//! package, and each of those links to the package's files. Keys are the
//! file addresses relative to the package base, without checksums or queries.

use vstd::prelude::*;
use vstd::string::StrSliceExecFns;
use vstd::string::StringExecFns;

use crate::error::Error;
use crate::{paths_view, strings_view, SnapshotPath, TransferURL};

verus! {

/// A package index served as simple HTML pages.
#[derive(Debug, Clone)]
pub struct Pypi {
    /// Base of the simple index.
    pub simple_base: String,
    /// Base under which package files are stored.
    pub package_base: String,
    /// Read only the beginning of the root index, for quick trial runs.
    pub debug: bool,
}

/// The anchor pattern: group 1 is the link, group 2 the label. No part of it
/// reaches past the end of its own tag, so each anchor gives its own match.
pub const ANCHOR_PATTERN: &'static str = "<a[^>]*href=\"([^\"]*)\"[^>]*>(.*?)</a>";

/// Characters of the root index read in a debug run.
pub const DEBUG_INDEX_CHARS: usize = 1000;

/// The (group 1, group 2) pairs of every match of a pattern in a text, in
/// order, or `None` when the pattern does not compile.
pub uninterp spec fn captured_pairs_of(pattern: Seq<char>, text: Seq<char>) -> Option<
    Seq<(Seq<char>, Seq<char>)>,
>;

/// The absolute address up to the end of its path, or `None` when the text
/// is not an absolute address.
pub uninterp spec fn canonical_link_of(url: Seq<char>) -> Option<Seq<char>>;

/// Pairs of strings, as pairs of character sequences.
pub open spec fn pairs_view(v: Seq<(String, String)>) -> Seq<(Seq<char>, Seq<char>)> {
    v.map_values(|p: (String, String)| (p.0@, p.1@))
}

/// Relies on regex::Regex::new to compile `pattern` and on
/// Regex::captures_iter for its matches in `text`, group 1 and group 2 of
/// each, in order; a group that took no part reads as empty.
#[verifier::external_body]
fn capture_pairs(pattern: &str, text: &str) -> (r: Option<Vec<(String, String)>>)
    ensures
        match r {
            Some(v) => captured_pairs_of(pattern@, text@) == Some(pairs_view(v@)),
            None => captured_pairs_of(pattern@, text@) is None,
        },
{
    let re = regex::Regex::new(pattern).ok()?;
    Some(
        re.captures_iter(text).map(
            |c| (
                c.get(1).map_or(String::new(), |m| m.as_str().to_string()),
                c.get(2).map_or(String::new(), |m| m.as_str().to_string()),
            ),
        ).collect(),
    )
}

/// Text without a query mark `?` or a fragment mark `#`.
pub open spec fn has_no_query_or_fragment(s: Seq<char>) -> bool {
    forall|j: int| 0 <= j < s.len() ==> #[trigger] s[j] != '?' && s[j] != '#'
}

/// Relies on url::Url::parse and on slicing the parsed address up to
/// url::Position::AfterPath, which drops its query and fragment: the parser
/// ends the path at the first `?` or `#` and percent-encodes both in the
/// user name and password.
#[verifier::external_body]
fn canonical_link(url: &str) -> (r: Option<String>)
    ensures
        match r {
            Some(c) => canonical_link_of(url@) == Some(c@) && has_no_query_or_fragment(c@),
            None => canonical_link_of(url@) is None,
        },
{
    url::Url::parse(url).ok().map(|p| p[..url::Position::AfterPath].to_string())
}

/// The text read from the root index: all of it, or its first characters in
/// a debug run.
pub open spec fn index_text(index: Seq<char>, debug: bool) -> Seq<char> {
    if debug && index.len() > DEBUG_INDEX_CHARS {
        index.subrange(0, DEBUG_INDEX_CHARS as int)
    } else {
        index
    }
}

/// The address of a package's files, as a package index page links them.
pub open spec fn leaf_link(simple_base: Seq<char>, child: Seq<char>, href: Seq<char>) -> Seq<
    char,
> {
    simple_base + seq!['/'] + child + href
}

/// The canonical addresses of all links of a package page, if each of them
/// canonicalizes.
pub open spec fn canonical_leaves(
    simple_base: Seq<char>,
    child: Seq<char>,
    pairs: Seq<(Seq<char>, Seq<char>)>,
) -> Option<Seq<Seq<char>>>
    decreases pairs.len(),
{
    if pairs.len() == 0 {
        Some(Seq::empty())
    } else {
        match canonical_leaves(simple_base, child, pairs.drop_last()) {
            Some(prev) => match canonical_link_of(leaf_link(simple_base, child, pairs.last().0)) {
                Some(c) => Some(prev.push(c)),
                None => None,
            },
            None => None,
        }
    }
}

/// The package base as a directory: with one trailing slash.
pub open spec fn base_dir(package_base: Seq<char>) -> Seq<char> {
    if package_base.len() > 0 && package_base.last() == '/' {
        package_base
    } else {
        package_base.push('/')
    }
}

/// Whether `s` begins with `prefix`.
pub open spec fn has_prefix(s: Seq<char>, prefix: Seq<char>) -> bool {
    prefix.len() <= s.len() && s.subrange(0, prefix.len() as int) == prefix
}

/// The links that one package page gave: none when it failed.
pub open spec fn child_links(child: Result<Vec<String>, Error>) -> Seq<Seq<char>> {
    match child {
        Ok(v) => strings_view(v@),
        Err(_) => Seq::empty(),
    }
}

/// The links of all package pages, page after page.
pub open spec fn all_links(children: Seq<Result<Vec<String>, Error>>) -> Seq<Seq<char>>
    decreases children.len(),
{
    if children.len() == 0 {
        Seq::empty()
    } else {
        all_links(children.drop_last()) + child_links(children.last())
    }
}

/// The links that lie under `base`, each made relative to it; others are
/// dropped.
pub open spec fn keys_on_base(links: Seq<Seq<char>>, base: Seq<char>) -> Seq<Seq<char>>
    decreases links.len(),
{
    if links.len() == 0 {
        Seq::empty()
    } else {
        let prev = keys_on_base(links.drop_last(), base);
        if has_prefix(links.last(), base) {
            prev.push(links.last().subrange(base.len() as int, links.last().len() as int))
        } else {
            prev
        }
    }
}

/// `a`, `b` and `c` one after the other.
fn join3(a: &str, b: &str, c: &str) -> (r: String)
    ensures
        r@ == a@ + b@ + c@,
{
    let mut r = a.to_string();
    r.append(b);
    r.append(c);
    r
}

/// The link made relative to `base`, when it lies under it.
pub fn strip_base(link: &str, base: &str) -> (r: Option<String>)
    ensures
        has_prefix(link@, base@) ==> (r matches Some(k) && k@ == link@.subrange(
            base@.len() as int,
            link@.len() as int,
        )),
        !has_prefix(link@, base@) ==> r is None,
{
    let n = link.unicode_len();
    let m = base.unicode_len();
    if m > n {
        return None;
    }
    let mut i: usize = 0;
    while i < m
        invariant
            n == link@.len(),
            m == base@.len(),
            m <= n,
            i <= m,
            forall|j: int| 0 <= j < i ==> link@[j] == base@[j],
        decreases m - i,
    {
        if link.get_char(i) != base.get_char(i) {
            assert(link@.subrange(0, m as int)[i as int] != base@[i as int]);
            return None;
        }
        i = i + 1;
    }
    assert(link@.subrange(0, m as int) =~= base@);
    Some(link.substring_char(m, n).to_string())
}

/// The package base with exactly one trailing slash added when it has none.
pub fn package_base_dir(package_base: &str) -> (r: String)
    ensures
        r@ == base_dir(package_base@),
{
    let n = package_base.unicode_len();
    if n > 0 && package_base.get_char(n - 1) == '/' {
        package_base.to_string()
    } else {
        let mut r = package_base.to_string();
        r.append("/");
        proof {
            reveal_strlit("/");
            assert(r@ =~= package_base@.push('/'));
        }
        r
    }
}

/// The canonical addresses of the links found on one package page, fetched
/// from `child` under `simple_base`: an error when a link does not
/// canonicalize, so that the page counts as failed.
pub fn leaf_keys(simple_base: &str, child: &str, pairs: &Vec<(String, String)>) -> (r: Result<
    Vec<String>,
    Error,
>)
    ensures
        match canonical_leaves(simple_base@, child@, pairs_view(pairs@)) {
            Some(v) => r matches Ok(k) && strings_view(k@) == v,
            None => r matches Err(e) && e is ParseError,
        },
        r matches Ok(k) ==> forall|i: int|
            0 <= i < k@.len() ==> has_no_query_or_fragment(#[trigger] k@[i]@),
{
    let ghost ps = pairs_view(pairs@);
    let mut out: Vec<String> = Vec::new();
    let mut i: usize = 0;
    while i < pairs.len()
        invariant
            i <= pairs@.len(),
            ps == pairs_view(pairs@),
            canonical_leaves(simple_base@, child@, ps.take(i as int)) == Some(strings_view(out@)),
            forall|j: int| 0 <= j < out@.len() ==> has_no_query_or_fragment(#[trigger] out@[j]@),
        decreases pairs@.len() - i,
    {
        assert(ps.take(i + 1).drop_last() =~= ps.take(i as int));
        let mut link = join3(simple_base, "/", child);
        link.append(pairs[i].0.as_str());
        proof {
            reveal_strlit("/");
            assert(link@ =~= leaf_link(simple_base@, child@, ps[i as int].0));
        }
        match canonical_link(link.as_str()) {
            Some(c) => {
                let ghost before = out@;
                out.push(c);
                assert(strings_view(out@) =~= strings_view(before).push(c@));
            },
            None => {
                proof {
                    lemma_no_canonical_after(simple_base@, child@, ps, i as int + 1);
                }
                assert(ps.take(ps.len() as int) =~= ps);
                return Err(Error::ParseError);
            },
        }
        i = i + 1;
    }
    assert(ps.take(i as int) =~= ps);
    Ok(out)
}

proof fn lemma_no_canonical_after(
    simple_base: Seq<char>,
    child: Seq<char>,
    ps: Seq<(Seq<char>, Seq<char>)>,
    i: int,
)
    requires
        0 < i <= ps.len(),
        canonical_leaves(simple_base, child, ps.take(i)) is None,
    ensures
        canonical_leaves(simple_base, child, ps.take(ps.len() as int)) is None,
    decreases ps.len() - i,
{
    if i < ps.len() {
        assert(ps.take(i + 1).drop_last() =~= ps.take(i));
        lemma_no_canonical_after(simple_base, child, ps, i + 1);
    }
}


impl Pypi {
    /// The address of the root index.
    pub fn root_index_url(&self) -> (r: String)
        ensures
            r@ == self.simple_base@.push('/'),
    {
        let mut r = self.simple_base.clone();
        r.append("/");
        proof {
            reveal_strlit("/");
            assert(r@ =~= self.simple_base@.push('/'));
        }
        r
    }

    /// The address of the package index page that the root index links as
    /// `link`.
    pub fn child_index_url(&self, link: &str) -> (r: String)
        ensures
            r@ == self.simple_base@ + seq!['/'] + link@,
    {
        proof {
            reveal_strlit("/");
        }
        join3(self.simple_base.as_str(), "/", link)
    }

    /// The (link, label) pairs of the root index: of its first characters
    /// only in a debug run.
    pub fn index_entries(&self, index: &str) -> (r: Result<Vec<(String, String)>, Error>)
        ensures
            match captured_pairs_of(ANCHOR_PATTERN@, index_text(index@, self.debug)) {
                Some(ps) => r matches Ok(v) && pairs_view(v@) == ps,
                None => r matches Err(e) && e is ParseError,
            },
    {
        let n = index.unicode_len();
        let text = if self.debug && n > DEBUG_INDEX_CHARS {
            index.substring_char(0, DEBUG_INDEX_CHARS)
        } else {
            index
        };
        match capture_pairs(ANCHOR_PATTERN, text) {
            Some(v) => Ok(v),
            None => Err(Error::ParseError),
        }
    }

    /// The canonical addresses of the files that the package index page
    /// `page`, fetched from the link `child`, lists.
    pub fn child_keys(&self, child: &str, page: &str) -> (r: Result<Vec<String>, Error>)
        ensures
            match captured_pairs_of(ANCHOR_PATTERN@, page@) {
                Some(ps) => match canonical_leaves(self.simple_base@, child@, ps) {
                    Some(v) => r matches Ok(k) && strings_view(k@) == v,
                    None => r matches Err(e) && e is ParseError,
                },
                None => r matches Err(e) && e is ParseError,
            },
            r matches Ok(k) ==> forall|i: int|
                0 <= i < k@.len() ==> has_no_query_or_fragment(#[trigger] k@[i]@),
    {
        match capture_pairs(ANCHOR_PATTERN, page) {
            Some(pairs) => leaf_keys(self.simple_base.as_str(), child, &pairs),
            None => Err(Error::ParseError),
        }
    }

    /// The snapshot made of what every package page gave: a failed page adds
    /// nothing, and links outside the package base are dropped.
    pub fn snapshot_keys(&self, children: &Vec<Result<Vec<String>, Error>>) -> (r: Vec<
        SnapshotPath,
    >)
        ensures
            paths_view(r@) == keys_on_base(all_links(children@), base_dir(self.package_base@)),
    {
        let base = package_base_dir(self.package_base.as_str());
        let mut out: Vec<SnapshotPath> = Vec::new();
        let mut i: usize = 0;
        while i < children.len()
            invariant
                i <= children@.len(),
                base@ == base_dir(self.package_base@),
                paths_view(out@) == keys_on_base(all_links(children@.take(i as int)), base@),
            decreases children@.len() - i,
        {
            let ghost done = all_links(children@.take(i as int));
            assert(children@.take(i + 1).drop_last() =~= children@.take(i as int));
            match &children[i] {
                Ok(v) => {
                    let ghost sv = strings_view(v@);
                    let mut j: usize = 0;
                    while j < v.len()
                        invariant
                            j <= v@.len(),
                            sv == strings_view(v@),
                            paths_view(out@) == keys_on_base(done + sv.take(j as int), base@),
                        decreases v@.len() - j,
                    {
                        let ghost before = out@;
                        assert((done + sv.take(j + 1)).drop_last() =~= done + sv.take(j as int));
                        assert((done + sv.take(j + 1)).last() == v@[j as int]@);
                        if let Some(k) = strip_base(v[j].as_str(), base.as_str()) {
                            out.push(SnapshotPath(k));
                            assert(paths_view(out@) =~= paths_view(before).push(k@));
                        }
                        j = j + 1;
                    }
                    assert(sv.take(j as int) =~= sv);
                },
                Err(_) => {
                    assert(done + Seq::<Seq<char>>::empty() =~= done);
                },
            }
            i = i + 1;
        }
        assert(children@.take(i as int) =~= children@);
        out
    }

    /// The address from which the file with key `key` is fetched: the
    /// package base as a directory, then the key, so that a key of the
    /// snapshot leads back to the address it was taken from.
    pub fn get_object(&self, key: &SnapshotPath) -> (r: TransferURL)
        ensures
            r.0@ == base_dir(self.package_base@) + key.0@,
    {
        let mut u = package_base_dir(self.package_base.as_str());
        u.append(key.0.as_str());
        TransferURL(u)
    }
}


proof fn lemma_page_links_in_all(children: Seq<Result<Vec<String>, Error>>, k: int, j: int)
    requires
        0 <= k < children.len(),
        0 <= j < child_links(children[k]).len(),
    ensures
        all_links(children).contains(child_links(children[k])[j]),
    decreases children.len(),
{
    let prev = all_links(children.drop_last());
    if k == children.len() - 1 {
        assert(all_links(children)[prev.len() + j] == child_links(children[k])[j]);
    } else {
        assert(children.drop_last()[k] == children[k]);
        lemma_page_links_in_all(children.drop_last(), k, j);
        let i = choose|i: int| 0 <= i < prev.len() && prev[i] == child_links(children[k])[j];
        assert(all_links(children)[i] == prev[i]);
    }
}

proof fn lemma_link_on_base_kept(links: Seq<Seq<char>>, base: Seq<char>, x: Seq<char>)
    requires
        links.contains(x),
        has_prefix(x, base),
    ensures
        keys_on_base(links, base).contains(x.subrange(base.len() as int, x.len() as int)),
    decreases links.len(),
{
    let prev = keys_on_base(links.drop_last(), base);
    if links.last() == x {
        assert(keys_on_base(links, base).last() == x.subrange(base.len() as int, x.len() as int));
    } else {
        let i = choose|i: int| 0 <= i < links.len() && links[i] == x;
        assert(links.drop_last()[i] == x);
        lemma_link_on_base_kept(links.drop_last(), base, x);
        let m = choose|m: int|
            0 <= m < prev.len() && prev[m] == x.subrange(base.len() as int, x.len() as int);
        assert(keys_on_base(links, base)[m] == prev[m]);
    }
}

/// However many package pages failed, every file that a page which did not
/// fail listed under the package base stands in the snapshot, relative to
/// that base.
pub proof fn lemma_successful_pages_kept(
    children: Seq<Result<Vec<String>, Error>>,
    base: Seq<char>,
    k: int,
    j: int,
)
    requires
        0 <= k < children.len(),
        0 <= j < child_links(children[k]).len(),
        has_prefix(child_links(children[k])[j], base),
    ensures
        keys_on_base(all_links(children), base).contains(
            child_links(children[k])[j].subrange(
                base.len() as int,
                child_links(children[k])[j].len() as int,
            ),
        ),
{
    lemma_page_links_in_all(children, k, j);
    lemma_link_on_base_kept(all_links(children), base, child_links(children[k])[j]);
}

/// A package page that failed adds nothing: the snapshot is the one taken
/// as if that page had not been listed at all.
pub proof fn lemma_failed_page_adds_nothing(
    children: Seq<Result<Vec<String>, Error>>,
    base: Seq<char>,
    k: int,
)
    requires
        0 <= k < children.len(),
        children[k] is Err,
    ensures
        keys_on_base(all_links(children), base) == keys_on_base(all_links(children.remove(k)), base),
{
    lemma_failed_page_links(children, k);
}

proof fn lemma_failed_page_links(children: Seq<Result<Vec<String>, Error>>, k: int)
    requires
        0 <= k < children.len(),
        children[k] is Err,
    ensures
        all_links(children) == all_links(children.remove(k)),
    decreases children.len(),
{
    let prev = all_links(children.drop_last());
    if k == children.len() - 1 {
        assert(children.remove(k) =~= children.drop_last());
        assert(prev + Seq::<Seq<char>>::empty() =~= prev);
    } else {
        let r = children.remove(k);
        assert(r.drop_last() =~= children.drop_last().remove(k));
        assert(r.last() == children.last());
        lemma_failed_page_links(children.drop_last(), k);
    }
}

/// A key that the snapshot took from a link under the package base leads
/// back to that link: the package base as a directory, then the key.
pub proof fn lemma_key_leads_back_to_its_link(package_base: Seq<char>, link: Seq<char>)
    requires
        has_prefix(link, base_dir(package_base)),
    ensures
        base_dir(package_base) + link.subrange(base_dir(package_base).len() as int, link.len() as int)
            == link,
{
    let b = base_dir(package_base);
    assert(link.subrange(0, b.len() as int) == b);
    assert(b + link.subrange(b.len() as int, link.len() as int) =~= link);
}

} // verus!
