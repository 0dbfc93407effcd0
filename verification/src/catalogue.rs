//! The catalogue of the OpenAction marketplace: from the id of a plugin to the
//! address that it is installed from.
use vstd::prelude::*;
use vstd::utf8::*;
use crate::marketplace;
use crate::marketplace::Link;
use crate::stores::to_ascii_lowercase;
use crate::text;
use crate::text::{
    byte_len, concat3, contains, ends_with, same_text, starts_with, strip_suffix, to_lowercase,
    trim, trim_end_char,
};

verus! {

pub const MARKETPLACE_URL: &'static str = "https://marketplace.rivul.us/";

pub const CATALOGUE_URL: &'static str = "https://openactionapi.github.io/plugins/catalogue.json";

/// For how many seconds a catalogue that was fetched is used.
pub const CATALOGUE_TTL_SECS: u64 = 600;

/// What the catalogue says of a plugin.
pub struct CatalogueEntry {
    pub name: Option<String>,
    pub author: Option<String>,
    pub repository: Option<String>,
    pub description: Option<String>,
    pub download_url: Option<String>,
}

/// From where a plugin is installed.
pub struct ResolvedInstall {
    pub plugin_id: String,
    pub download_url: Option<String>,
    pub repository_url: Option<String>,
}

/// The model of a `ResolvedInstall`.
pub struct ResolvedView {
    pub plugin_id: Seq<char>,
    pub download_url: Option<Seq<char>>,
    pub repository_url: Option<Seq<char>>,
}

impl View for ResolvedInstall {
    type V = ResolvedView;

    open spec fn view(&self) -> ResolvedView {
        ResolvedView {
            plugin_id: self.plugin_id@,
            download_url: text::opt_text(self.download_url),
            repository_url: text::opt_text(self.repository_url),
        }
    }
}

/// Whether a catalogue that was fetched at one time is still used at another.
pub fn is_fresh(fetched_at_secs: u64, now: u64) -> (r: bool)
    ensures
        r == (now - fetched_at_secs <= CATALOGUE_TTL_SECS),
{
    now < fetched_at_secs || now - fetched_at_secs <= CATALOGUE_TTL_SECS
}

// ---------------------------------------------------------------------------
// Ids and addresses
// ---------------------------------------------------------------------------

/// `s` without `suffix` at its end, however often it stands there.
pub open spec fn without_suffixes(s: Seq<char>, suffix: Seq<char>) -> Seq<char>
    decreases s.len(),
{
    if suffix.len() > 0 && suffix.is_suffix_of(s) {
        without_suffixes(s.take(s.len() - suffix.len()), suffix)
    } else {
        s
    }
}

fn trim_end_text(s: String, suffix: &str) -> (r: String)
    requires
        suffix@.len() > 0,
    ensures
        r@ == without_suffixes(s@, suffix@),
{
    let mut t = s;
    let mut more = true;
    while more
        invariant
            suffix@.len() > 0,
            without_suffixes(t@, suffix@) == without_suffixes(s@, suffix@),
            !more ==> !suffix@.is_suffix_of(t@),
        decreases t@.len() + (if more { 1int } else { 0int }),
    {
        match strip_suffix(&t, suffix) {
            Some(u) => {
                assert(u@ =~= t@.take(t@.len() - suffix@.len()));
                t = u;
            },
            None => {
                more = false;
            },
        }
    }
    t
}

/// The id of a plugin without white space and without the ending of its
/// directory.
pub open spec fn plugin_id_of(id: Seq<char>) -> Seq<char> {
    without_suffixes(without_suffixes(text::trimmed(id), ".sdPlugin"@), ".sdplugin"@)
}

/// The id of a plugin without the ending of its directory.
pub fn normalize_plugin_id(id: &str) -> (r: String)
    ensures
        r@ == plugin_id_of(id@),
{
    proof {
        reveal_strlit(".sdPlugin");
        reveal_strlit(".sdplugin");
    }
    let t = trim_end_text(trim(id), ".sdPlugin");
    trim_end_text(t, ".sdplugin")
}

/// A web address.
pub open spec fn is_web(url: Seq<char>) -> bool {
    "https://"@.is_prefix_of(url) || "http://"@.is_prefix_of(url)
}

/// Whether an address is one of the web.
pub fn is_web_url(url: &str) -> (r: bool)
    ensures
        r == is_web(url@),
{
    starts_with(url, "https://") || starts_with(url, "http://")
}

/// The address of a repository, without white space and slashes at its end;
/// `None` where it is too long or no web address.
pub open spec fn repo_url(url: Seq<char>) -> Option<Seq<char>> {
    let u = text::trim_end_where(text::trimmed(url), |c: char| c == '/');
    if encode_utf8(u).len() > 1024 || !is_web(u) {
        None
    } else {
        Some(u)
    }
}

/// The address of a repository.
pub fn normalize_repo_url(url: &str) -> (r: Option<String>)
    ensures
        text::opt_text(r) == repo_url(url@),
{
    let t = trim(url);
    let u = trim_end_char(&t, '/');
    if byte_len(&u) > 1024 || !is_web_url(&u) {
        None
    } else {
        Some(u)
    }
}

/// The owner and the name of the repository that a link leads to, if it leads to
/// one on GitHub.
pub open spec fn owner_and_repo(l: marketplace::LinkView) -> Option<(Seq<char>, Seq<char>)> {
    let host = match l.host {
        Some(h) => h,
        None => Seq::empty(),
    };
    match marketplace::segments_of(l.path) {
        Some(s) => {
            if text::ascii_lowered(host) != "github.com"@ || s.len() < 2 || text::trimmed(
                s[0],
            ).len() == 0 || text::trimmed(s[1]).len() == 0 {
                None
            } else {
                Some((text::trimmed(s[0]), text::trimmed(s[1])))
            }
        },
        None => None,
    }
}

/// The model of a pair that there may be.
pub open spec fn opt_pair(p: Option<(String, String)>) -> Option<(Seq<char>, Seq<char>)> {
    match p {
        Some(x) => Some((x.0@, x.1@)),
        None => None,
    }
}

/// The owner and the name of the repository that a link leads to.
pub fn repository_of_link(link: &Link) -> (r: Option<(String, String)>)
    ensures
        opt_pair(r) == owner_and_repo(link@),
{
    let host = match &link.host {
        Some(h) => h.clone(),
        None => String::new(),
    };
    assert(link@.host is None ==> host@ =~= Seq::empty());
    let l = to_ascii_lowercase(&host);
    if !same_text(&l, "github.com") {
        return None;
    }
    match link.path_segments() {
        Some(s) => {
            let ghost parts = text::texts(s@);
            if s.len() < 2 {
                return None;
            }
            assert(parts[0] == s@[0]@ && parts[1] == s@[1]@);
            let owner = trim(&s[0]);
            let repo = trim(&s[1]);
            if owner.as_str().is_empty() || repo.as_str().is_empty() {
                None
            } else {
                Some((owner, repo))
            }
        },
        None => None,
    }
}

/// The owner and the name of the repository at an address, if it is one on
/// GitHub.
pub fn github_owner_repo(repo_url: &str) -> (r: Option<(String, String)>)
    ensures
        opt_pair(r) == match marketplace::parsed_url(repo_url@) {
            Some(l) => owner_and_repo(l),
            None => None,
        },
{
    match Link::parse(repo_url) {
        Some(link) => repository_of_link(&link),
        None => None,
    }
}

/// The addresses under which the newest release of a repository may offer a
/// plugin, in the order in which they are tried.
pub open spec fn release_urls(owner: Seq<char>, repo: Seq<char>, id: Seq<char>) -> Seq<Seq<char>> {
    let base = "https://github.com/"@ + owner + "/"@ + repo + "/releases/latest/download/"@;
    seq![
        base + (id + ".zip"@),
        base + (id + ".streamDeckPlugin"@),
        base + (id + ".streamDeckIconPack"@),
        base + (id + ".sdPlugin.zip"@),
        base + (id + ".sdPlugin"@),
    ]
}

/// The addresses under which the newest release of a repository may offer a
/// plugin.
pub fn release_candidates(owner: &str, repo: &str, plugin_id: &str) -> (r: Vec<String>)
    ensures
        text::texts(r@) == release_urls(owner@, repo@, plugin_id@),
{
    let host = concat3("https://github.com/", owner, "/");
    let base = concat3(&host, repo, "/releases/latest/download/");
    let mut v: Vec<String> = Vec::new();
    v.push(concat3(&base, plugin_id, ".zip"));
    v.push(concat3(&base, plugin_id, ".streamDeckPlugin"));
    v.push(concat3(&base, plugin_id, ".streamDeckIconPack"));
    v.push(concat3(&base, plugin_id, ".sdPlugin.zip"));
    v.push(concat3(&base, plugin_id, ".sdPlugin"));
    let ghost want = release_urls(owner@, repo@, plugin_id@);
    let ghost b = "https://github.com/"@ + owner@ + "/"@ + repo@ + "/releases/latest/download/"@;
    assert(base@ =~= b);
    assert(v@[0]@ =~= want[0]);
    assert(v@[1]@ =~= want[1]);
    assert(v@[2]@ =~= want[2]);
    assert(v@[3]@ =~= want[3]);
    assert(v@[4]@ =~= want[4]);
    assert(text::texts(v@) =~= want);
    v
}

/// The address of the description of a repository's newest release.
pub fn latest_release_api(owner: &str, repo: &str) -> (r: String)
    ensures
        r@ == "https://api.github.com/repos/"@ + owner@ + "/"@ + repo@ + "/releases/latest"@,
{
    let head = concat3("https://api.github.com/repos/", owner, "/");
    let s = concat3(&head, repo, "/releases/latest");
    assert(s@ =~= "https://api.github.com/repos/"@ + owner@ + "/"@ + repo@ + "/releases/latest"@);
    s
}

/// A file of a release.
pub struct ReleaseAsset {
    pub name: Option<String>,
    pub browser_download_url: Option<String>,
}

/// The text, or nothing.
pub open spec fn or_empty(s: Option<String>) -> Seq<char> {
    match s {
        Some(t) => t@,
        None => Seq::empty(),
    }
}

/// A file of a release that a plugin is installed from.
pub open spec fn is_installable(name: Seq<char>, url: Seq<char>) -> bool {
    let n = text::lowercased(name);
    let u = text::lowercased(url);
    &&& url.len() > 0
    &&& is_web(url)
    &&& {
        ||| ".streamdeckplugin"@.is_suffix_of(n)
        ||| text::contains_text(u, ".streamdeckplugin"@)
        ||| ".streamdeckiconpack"@.is_suffix_of(n)
        ||| text::contains_text(u, ".streamdeckiconpack"@)
        ||| ".zip"@.is_suffix_of(n)
    }
}

/// The address of the first file, from number `from` on, that a plugin is
/// installed from.
pub open spec fn first_installable(assets: Seq<ReleaseAsset>, from: int) -> Option<Seq<char>>
    decreases assets.len() - from,
{
    if from < 0 || from >= assets.len() {
        None
    } else {
        let url = text::trimmed(or_empty(assets[from].browser_download_url));
        if is_installable(or_empty(assets[from].name), url) {
            Some(url)
        } else {
            first_installable(assets, from + 1)
        }
    }
}

/// The address of the first file of a release that a plugin is installed from.
pub fn choose_asset(assets: &Vec<ReleaseAsset>) -> (r: Option<String>)
    ensures
        text::opt_text(r) == first_installable(assets@, 0),
{
    let mut i: usize = 0;
    while i < assets.len()
        invariant
            i <= assets@.len(),
            first_installable(assets@, 0) == first_installable(assets@, i as int),
        decreases assets@.len() - i,
    {
        let raw = match &assets[i].browser_download_url {
            Some(u) => u.clone(),
            None => String::new(),
        };
        let name = match &assets[i].name {
            Some(n) => n.clone(),
            None => String::new(),
        };
        assert(raw@ =~= or_empty(assets@[i as int].browser_download_url));
        assert(name@ =~= or_empty(assets@[i as int].name));
        let url = trim(&raw);
        let n = to_lowercase(&name);
        let u = to_lowercase(&url);
        if !url.as_str().is_empty() && (ends_with(&n, ".streamdeckplugin") || contains(
            &u,
            ".streamdeckplugin",
        ) || ends_with(&n, ".streamdeckiconpack") || contains(&u, ".streamdeckiconpack")
            || ends_with(&n, ".zip")) && is_web_url(&url) {
            return Some(url);
        }
        i = i + 1;
    }
    None
}

// ---------------------------------------------------------------------------
// Resolving
// ---------------------------------------------------------------------------

/// Why a plugin cannot be installed.
#[derive(Clone, Copy, PartialEq, Eq, Structural, Debug)]
pub enum ResolveError {
    InvalidPluginId,
    NotInCatalogue,
    UnsupportedScheme,
}

/// An id that can be looked for.
pub open spec fn is_valid_id(id: Seq<char>) -> bool {
    id.len() > 0 && encode_utf8(id).len() <= 256
}

/// The id under which a plugin is looked for; an error where it is empty or too
/// long.
pub fn lookup_id(plugin_id: &str) -> (r: Result<String, ResolveError>)
    ensures
        match r {
            Ok(id) => id@ == plugin_id_of(plugin_id@) && is_valid_id(id@),
            Err(e) => e == ResolveError::InvalidPluginId && !is_valid_id(
                plugin_id_of(plugin_id@),
            ),
        },
{
    let id = normalize_plugin_id(plugin_id);
    if id.as_str().is_empty() || byte_len(&id) > 256 {
        Err(ResolveError::InvalidPluginId)
    } else {
        Ok(id)
    }
}

/// What the catalogue makes of a plugin.
pub enum Resolution {
    Refused(ResolveError),
    Ready(ResolvedInstall),
    /// The newest release of the repository is to be looked at first.
    AskRepository(ResolvedInstall),
}

/// The repository that an entry names.
pub open spec fn entry_repo(e: CatalogueEntry) -> Option<Seq<char>> {
    match e.repository {
        Some(u) => repo_url(u@),
        None => None,
    }
}

/// What the catalogue makes of a plugin, given its entry. An address for the
/// download comes first; without one, the repository may offer the plugin.
pub fn resolve_entry(plugin_id: String, entry: &Option<CatalogueEntry>) -> (r: Resolution)
    ensures
        match *entry {
            None => r == Resolution::Refused(ResolveError::NotInCatalogue),
            Some(e) => {
                let url = text::trimmed(or_empty(e.download_url));
                if url.len() > 0 && !is_web(url) {
                    r == Resolution::Refused(ResolveError::UnsupportedScheme)
                } else if url.len() > 0 {
                    r matches Resolution::Ready(i) && i@ == (ResolvedView {
                        plugin_id: plugin_id@,
                        download_url: Some(url),
                        repository_url: entry_repo(e),
                    })
                } else if entry_repo(e) is Some {
                    r matches Resolution::AskRepository(i) && i@ == (ResolvedView {
                        plugin_id: plugin_id@,
                        download_url: None,
                        repository_url: entry_repo(e),
                    })
                } else {
                    r matches Resolution::Ready(i) && i@ == (ResolvedView {
                        plugin_id: plugin_id@,
                        download_url: None,
                        repository_url: None,
                    })
                }
            },
        },
{
    match entry {
        None => Resolution::Refused(ResolveError::NotInCatalogue),
        Some(e) => {
            let repository_url = match &e.repository {
                Some(u) => normalize_repo_url(u),
                None => None,
            };
            let raw = match &e.download_url {
                Some(u) => u.clone(),
                None => String::new(),
            };
            assert(raw@ =~= or_empty(e.download_url));
            let url = trim(&raw);
            if !url.as_str().is_empty() {
                if !is_web_url(&url) {
                    return Resolution::Refused(ResolveError::UnsupportedScheme);
                }
                return Resolution::Ready(
                    ResolvedInstall { plugin_id, download_url: Some(url), repository_url },
                );
            }
            if repository_url.is_some() {
                Resolution::AskRepository(
                    ResolvedInstall { plugin_id, download_url: None, repository_url },
                )
            } else {
                Resolution::Ready(
                    ResolvedInstall { plugin_id, download_url: None, repository_url: None },
                )
            }
        },
    }
}

/// The answer once the repository has been looked at: with the address that it
/// offers, if any.
pub fn finish_install(asked: ResolvedInstall, found: Option<String>) -> (r: ResolvedInstall)
    ensures
        r@ == (ResolvedView { download_url: text::opt_text(found), ..asked@ }),
{
    ResolvedInstall {
        plugin_id: asked.plugin_id,
        download_url: found,
        repository_url: asked.repository_url,
    }
}

proof fn lemma_without_suffixes(s: Seq<char>, suffix: Seq<char>)
    requires
        suffix.len() > 0,
    ensures
        !suffix.is_suffix_of(without_suffixes(s, suffix)),
        without_suffixes(without_suffixes(s, suffix), suffix) == without_suffixes(s, suffix),
    decreases s.len(),
{
    if suffix.is_suffix_of(s) {
        lemma_without_suffixes(s.take(s.len() - suffix.len()), suffix);
    }
}

/// No id under which a plugin is looked for has the ending of a directory.
pub proof fn law_plugin_id_has_no_ending(id: Seq<char>)
    ensures
        !".sdplugin"@.is_suffix_of(plugin_id_of(id)),
{
    reveal_strlit(".sdplugin");
    lemma_without_suffixes(
        without_suffixes(text::trimmed(id), ".sdPlugin"@),
        ".sdplugin"@,
    );
}

/// Every address that a release is searched for is one that a plugin may be
/// installed from: a web address.
pub proof fn law_assets_are_web(assets: Seq<ReleaseAsset>, from: int)
    ensures
        first_installable(assets, from) matches Some(url) ==> is_web(url),
    decreases assets.len() - from,
{
    if 0 <= from < assets.len() {
        law_assets_are_web(assets, from + 1);
    }
}

/// The ending of a plugin's directory does not count in its id.
pub proof fn law_ending_does_not_count(id: Seq<char>)
    requires
        id.len() > 0,
        !text::is_white_space(id[0]),
        !text::is_white_space(id.last()),
    ensures
        plugin_id_of(id + ".sdPlugin"@) == plugin_id_of(id),
        !".sdPlugin"@.is_suffix_of(id) && !".sdplugin"@.is_suffix_of(id) ==> plugin_id_of(id)
            == id,
{
    reveal_strlit(".sdPlugin");
    let e = ".sdPlugin"@;
    let w = id + e;
    text::lemma_trimmed_behind(id, Seq::empty());
    assert(id + Seq::<char>::empty() =~= id);
    assert(text::trimmed(id) =~= id);
    assert(w.last() == 'n');
    text::lemma_trimmed_behind(w, Seq::empty());
    assert(w + Seq::<char>::empty() =~= w);
    assert(text::trimmed(w) =~= w);
    assert(w.subrange(w.len() - e.len(), w.len() as int) =~= e);
    assert(w.take(w.len() - e.len()) =~= id);
    assert(without_suffixes(w, e) == without_suffixes(id, e));
}

/// Slashes at the end of the address of a repository do not count, and only web
/// addresses are taken.
pub proof fn law_repo_url_is_an_address(url: Seq<char>)
    requires
        url.len() > 0,
        !text::is_white_space(url[0]),
        !text::is_white_space(url.last()),
    ensures
        repo_url(url + seq!['/']) == repo_url(url),
        repo_url(url) matches Some(u) ==> is_web(u) && encode_utf8(u).len() <= 1024 && (u.len() > 0
            ==> u.last() != '/'),
        url.last() != '/' && is_web(url) && encode_utf8(url).len() <= 1024 ==> repo_url(url)
            == Some(url),
{
    let slash = |c: char| c == '/';
    let w = url + seq!['/'];
    text::lemma_trimmed_behind(url, Seq::empty());
    assert(url + Seq::<char>::empty() =~= url);
    assert(text::trimmed(url) =~= url);
    assert(w.last() == '/');
    text::lemma_trimmed_behind(w, Seq::empty());
    assert(w + Seq::<char>::empty() =~= w);
    assert(text::trimmed(w) =~= w);
    assert(w.drop_last() =~= url);
    assert(text::trim_end_where(w, slash) == text::trim_end_where(url, slash));
    lemma_trim_end_stops(url, slash);
}

proof fn lemma_trim_end_stops(s: Seq<char>, drop: spec_fn(char) -> bool)
    ensures
        text::trim_end_where(s, drop).len() > 0 ==> !drop(text::trim_end_where(s, drop).last()),
    decreases s.len(),
{
    if s.len() > 0 && drop(s.last()) {
        lemma_trim_end_stops(s.drop_last(), drop);
    }
}

/// The files of a release that are tried are those of the newest release of the
/// repository, under the id of the plugin with each ending in turn.
pub proof fn law_release_urls_name_the_plugin(owner: Seq<char>, repo: Seq<char>, id: Seq<char>, k: int)
    requires
        0 <= k < release_urls(owner, repo, id).len(),
    ensures
        release_urls(owner, repo, id).len() == 5,
        ({
            let base = "https://github.com/"@ + owner + "/"@ + repo
                + "/releases/latest/download/"@;
            let u = release_urls(owner, repo, id);
            &&& u[k].take(base.len() as int) == base
            &&& u[k].skip(base.len() as int) == id + (if k == 0 {
                ".zip"@
            } else if k == 1 {
                ".streamDeckPlugin"@
            } else if k == 2 {
                ".streamDeckIconPack"@
            } else if k == 3 {
                ".sdPlugin.zip"@
            } else {
                ".sdPlugin"@
            })
        }),
{
    let base = "https://github.com/"@ + owner + "/"@ + repo + "/releases/latest/download/"@;
    let u = release_urls(owner, repo, id);
    let end = if k == 0 {
        ".zip"@
    } else if k == 1 {
        ".streamDeckPlugin"@
    } else if k == 2 {
        ".streamDeckIconPack"@
    } else if k == 3 {
        ".sdPlugin.zip"@
    } else {
        ".sdPlugin"@
    };
    assert(u[k] == base + (id + end));
    assert(u[k].take(base.len() as int) =~= base);
    assert(u[k].skip(base.len() as int) =~= id + end);
}

/// The file of a release that is taken is the first that a plugin can be installed
/// from.
pub proof fn law_first_installable_is_taken(assets: Seq<ReleaseAsset>, from: int, k: int)
    requires
        0 <= from <= k <= assets.len(),
        forall|j: int|
            from <= j < k ==> !is_installable(
                or_empty((#[trigger] assets[j]).name),
                text::trimmed(or_empty(assets[j].browser_download_url)),
            ),
        k < assets.len() ==> is_installable(
            or_empty(assets[k].name),
            text::trimmed(or_empty(assets[k].browser_download_url)),
        ),
    ensures
        k < assets.len() ==> first_installable(assets, from) == Some(
            text::trimmed(or_empty(assets[k].browser_download_url)),
        ),
        k == assets.len() ==> first_installable(assets, from) is None,
    decreases assets.len() - from,
{
    if from < k {
        let a = assets[from];
        assert(!is_installable(or_empty(a.name), text::trimmed(or_empty(a.browser_download_url))));
        law_first_installable_is_taken(assets, from + 1, k);
    }
}

/// A link to a repository on GitHub names its owner and the repository by its first
/// two segments; a link elsewhere, or one without both, names none.
pub proof fn law_repository_of_a_link(l: marketplace::LinkView)
    ensures
        l.host is None ==> owner_and_repo(l) is None,
        l.host matches Some(h) ==> text::ascii_lowered(h) != "github.com"@ ==> owner_and_repo(l)
            is None,
        owner_and_repo(l) matches Some(p) ==> p.0.len() > 0 && p.1.len() > 0 && (
        marketplace::segments_of(l.path) matches Some(s) && s.len() >= 2 && p.0 == text::trimmed(
            s[0],
        ) && p.1 == text::trimmed(s[1])),
{
    reveal_strlit("github.com");
    let none: Seq<char> = Seq::empty();
    assert(text::ascii_lowered(none).len() == 0);
}

/// A file of a release on the web is one to install from where its name ends as those of
/// plugins, icon packs and archives do; a file elsewhere never is.
pub proof fn law_installable_files(stem: Seq<char>, name: Seq<char>, url: Seq<char>)
    requires
        text::lowercased(name) == name,
    ensures
        !is_web(url) ==> !is_installable(name, url),
        url.len() > 0 && is_web(url) && (name == stem + ".zip"@ || name == stem
            + ".streamdeckplugin"@ || name == stem + ".streamdeckiconpack"@) ==> is_installable(
            name,
            url,
        ),
{
    lemma_ends_so(stem, ".zip"@);
    lemma_ends_so(stem, ".streamdeckplugin"@);
    lemma_ends_so(stem, ".streamdeckiconpack"@);
}

proof fn lemma_ends_so(stem: Seq<char>, end: Seq<char>)
    ensures
        end.is_suffix_of(stem + end),
{
    let s = stem + end;
    assert(s.subrange(s.len() - end.len(), s.len() as int) =~= end);
}

} // verus!
