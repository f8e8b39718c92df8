//! Model downloads: which HuggingFace token is in force, which hosts may see
//! it, how a transfer is cut into ranged requests, and where the partial
//! file lives while it downloads.
use vstd::prelude::*;
use crate::protocol::{DownloadProgress, DownloadStatus, StartDownloadRequest, StartDownloadResponse};
use crate::text::{chars_equal, chars_of, contains, contains_spec, ends_with, ends_with_spec, trim, trim_spec};

verus! {

/// Bytes per ranged request.
pub const CHUNK_SIZE: u64 = 10 * 1024 * 1024;

/// The HuggingFace tokens known to the downloader: the one found on the
/// machine at start-up, and the one configured in the app, which wins. The
/// holder has a single owner and cannot be cloned, so there is one place the
/// configured token is set and read: every download goes through that owner
/// (by reference), and no copy can drift from it.
#[derive(Debug)]
pub struct HfTokens {
    discovered: Option<String>,
    configured: Option<String>,
}

pub open spec fn opt_view(o: Option<String>) -> Option<Seq<char>> {
    match o {
        Some(s) => Some(s@),
        None => None,
    }
}

pub open spec fn opt_str_view(o: Option<&str>) -> Option<Seq<char>> {
    match o {
        Some(s) => Some(s@),
        None => None,
    }
}

/// A configured value: trimmed, and nothing when only whitespace remains.
pub open spec fn configured_token(token: Option<Seq<char>>) -> Option<Seq<char>> {
    match token {
        Some(t) => if trim_spec(t).len() == 0 {
            None
        } else {
            Some(trim_spec(t))
        },
        None => None,
    }
}

/// The token in force: the configured one, else the discovered one.
pub open spec fn token_in_force(configured: Option<Seq<char>>, discovered: Option<Seq<char>>) -> Option<Seq<char>> {
    match configured {
        Some(t) => Some(t),
        None => discovered,
    }
}

impl HfTokens {
    pub closed spec fn discovered_spec(&self) -> Option<Seq<char>> {
        opt_view(self.discovered)
    }

    pub closed spec fn configured_spec(&self) -> Option<Seq<char>> {
        opt_view(self.configured)
    }

    /// The tokens at start-up: the discovered one, nothing configured yet.
    pub fn new(discovered: Option<String>) -> (t: Self)
        ensures
            t.discovered_spec() == opt_view(discovered),
            t.configured_spec() == None::<Seq<char>>,
    {
        HfTokens { discovered, configured: None }
    }

    /// Sets the app's own token, or clears it with `None`; a value is trimmed
    /// and a blank one clears. Clearing falls back to the discovered token.
    pub fn set_hf_token(&mut self, token: Option<&str>)
        ensures
            final(self).configured_spec() == configured_token(opt_str_view(token)),
            final(self).discovered_spec() == old(self).discovered_spec(),
    {
        self.configured = match token {
            Some(t) => {
                let trimmed = trim(t);
                if trimmed.unicode_len() == 0 {
                    None
                } else {
                    Some(trimmed)
                }
            },
            None => None,
        };
    }

    /// The token in force.
    pub fn hf_token(&self) -> (r: Option<String>)
        ensures
            opt_view(r) == token_in_force(self.configured_spec(), self.discovered_spec()),
    {
        match &self.configured {
            Some(t) => Some(t.clone()),
            None => match &self.discovered {
                Some(t) => Some(t.clone()),
                None => None,
            },
        }
    }

    /// Whether any token is in force; gated repositories need one.
    pub fn has_hf_token(&self) -> (r: bool)
        ensures
            r == token_in_force(self.configured_spec(), self.discovered_spec()) is Some,
    {
        self.configured.is_some() || self.discovered.is_some()
    }
}

/// The first environment value that is not blank, trimmed.
pub open spec fn first_env_token(values: Seq<Option<Seq<char>>>) -> Option<Seq<char>>
    decreases values.len(),
{
    if values.len() == 0 {
        None
    } else {
        match values[0] {
            Some(v) => if trim_spec(v).len() > 0 {
                Some(trim_spec(v))
            } else {
                first_env_token(values.drop_first())
            },
            None => first_env_token(values.drop_first()),
        }
    }
}

pub open spec fn opts_view(s: Seq<Option<String>>) -> Seq<Option<Seq<char>>> {
    s.map_values(|o: Option<String>| opt_view(o))
}

/// The token found on the machine: the first non-blank environment value
/// (trimmed), else the token beside the app's own cache, else the shared
/// login token.
pub fn discover_token(env_values: &Vec<Option<String>>, cache_token: Option<String>, login_token: Option<String>) -> (r: Option<String>)
    ensures
        opt_view(r) == match first_env_token(opts_view(env_values@)) {
            Some(t) => Some(t),
            None => match opt_view(cache_token) {
                Some(t) => Some(t),
                None => opt_view(login_token),
            },
        },
{
    let ghost all = opts_view(env_values@);
    proof {
        assert(all.skip(0) =~= all);
    }
    let mut i: usize = 0;
    while i < env_values.len()
        invariant
            i <= env_values@.len(),
            all == opts_view(env_values@),
            first_env_token(all) == first_env_token(all.skip(i as int)),
        decreases env_values.len() - i,
    {
        proof {
            assert(all.skip(i as int).drop_first() =~= all.skip(i + 1));
            assert(all.skip(i as int)[0] == opt_view(env_values@[i as int]));
        }
        match &env_values[i] {
            Some(v) => {
                let trimmed = trim(v.as_str());
                if trimmed.unicode_len() > 0 {
                    return Some(trimmed);
                }
            },
            None => {},
        }
        i += 1;
    }
    proof {
        assert(all.skip(i as int).len() == 0);
    }
    match cache_token {
        Some(t) => Some(t),
        None => login_token,
    }
}

/// What the URL parser reports of a URL: its scheme and, when it has one,
/// its host; nothing when the text is not a URL.
pub uninterp spec fn parsed_url(url: Seq<char>) -> Option<(Seq<char>, Option<Seq<char>>)>;

pub open spec fn url_parts_view(r: Option<(String, Option<String>)>) -> Option<(Seq<char>, Option<Seq<char>>)> {
    match r {
        Some((scheme, host)) => Some((scheme@, opt_view(host))),
        None => None,
    }
}

/// `reqwest::Url::parse`, then `Url::scheme` and `Url::host_str`: the
/// scheme and host of a URL, or `None` when parsing fails. What the parser
/// accepts and how it normalises is the `url` crate's; the contract names
/// the result and claims nothing else of it.
#[verifier::external_body]
fn url_scheme_and_host(url: &str) -> (r: Option<(String, Option<String>)>)
    ensures
        url_parts_view(r) == parsed_url(url@),
{
    match reqwest::Url::parse(url) {
        Ok(parsed) => {
            let host = match parsed.host_str() {
                Some(h) => Some(h.to_string()),
                None => None,
            };
            Some((parsed.scheme().to_string(), host))
        },
        Err(_) => None,
    }
}

pub open spec fn https_spec() -> Seq<char> {
    seq!['h', 't', 't', 'p', 's']
}

pub open spec fn hf_host_spec() -> Seq<char> {
    seq!['h', 'u', 'g', 'g', 'i', 'n', 'g', 'f', 'a', 'c', 'e', '.', 'c', 'o']
}

/// `huggingface.co` itself or any of its subdomains.
pub open spec fn is_hf_host(host: Seq<char>) -> bool {
    host == hf_host_spec() || ends_with_spec(host, seq!['.'] + hf_host_spec())
}

/// HTTPS on `huggingface.co` or one of its subdomains.
pub open spec fn hf_location(scheme: Seq<char>, host: Option<Seq<char>>) -> bool {
    &&& scheme == https_spec()
    &&& (host matches Some(h) && is_hf_host(h))
}

/// Whether a parsed scheme and host are HTTPS on `huggingface.co` or a
/// subdomain of it.
pub fn is_huggingface_location(scheme: &str, host: Option<&str>) -> (r: bool)
    ensures
        r == hf_location(scheme@, opt_str_view(host)),
{
    let https = chars_of("https");
    proof {
        reveal_strlit("https");
        assert(https@ =~= https_spec());
    }
    if !chars_equal(&chars_of(scheme), &https) {
        return false;
    }
    match host {
        None => false,
        Some(h) => {
            let hv = chars_of(h);
            let apex = chars_of("huggingface.co");
            let suffix = chars_of(".huggingface.co");
            proof {
                reveal_strlit("huggingface.co");
                reveal_strlit(".huggingface.co");
                assert(apex@ =~= hf_host_spec());
                assert(suffix@ =~= seq!['.'] + hf_host_spec());
            }
            chars_equal(&hv, &apex) || ends_with(&hv, &suffix)
        },
    }
}

/// Whether `url` is on `huggingface.co` itself (or a subdomain) over HTTPS:
/// the only place the token may be sent. A URL that does not parse is not.
pub fn is_huggingface_url(url: &str) -> (r: bool)
    ensures
        r == match parsed_url(url@) {
            Some((scheme, host)) => hf_location(scheme, host),
            None => false,
        },
{
    match url_scheme_and_host(url) {
        Some((scheme, host)) => match host {
            Some(h) => is_huggingface_location(scheme.as_str(), Some(h.as_str())),
            None => is_huggingface_location(scheme.as_str(), None),
        },
        None => false,
    }
}

/// `Bearer <token>`.
pub open spec fn bearer(token: Seq<char>) -> Seq<char> {
    seq!['B', 'e', 'a', 'r', 'e', 'r', ' '] + token
}

/// The `Authorization` value a request to `url` carries: the token in force,
/// and only to HuggingFace over HTTPS.
pub fn authorization_for(tokens: &HfTokens, url: &str) -> (r: Option<String>)
    ensures
        opt_view(r) == match token_in_force(tokens.configured_spec(), tokens.discovered_spec()) {
            Some(t) => if (match parsed_url(url@) {
                Some((scheme, host)) => hf_location(scheme, host),
                None => false,
            }) {
                Some(bearer(t))
            } else {
                None
            },
            None => None,
        },
{
    match tokens.hf_token() {
        Some(token) => if is_huggingface_url(url) {
            let mut value = String::from_str("Bearer ");
            value.append(token.as_str());
            proof {
                reveal_strlit("Bearer ");
                assert(value@ =~= bearer(token@));
            }
            Some(value)
        } else {
            None
        },
        None => None,
    }
}

/// Inclusive byte ranges `[start, stop]` of at most `CHUNK_SIZE` bytes that
/// cover `[0, total)` in order.
pub open spec fn chunk_plan_spec(start: nat, total: nat) -> Seq<(u64, u64)>
    decreases total - start,
{
    if start >= total {
        seq![]
    } else {
        let stop = if start + CHUNK_SIZE <= total { start + CHUNK_SIZE - 1 } else { total - 1 };
        seq![(start as u64, stop as u64)] + chunk_plan_spec((stop + 1) as nat, total)
    }
}

/// The ranged requests of a transfer of `total` bytes.
pub fn chunk_ranges(total: u64) -> (r: Vec<(u64, u64)>)
    ensures
        r@ == chunk_plan_spec(0, total as nat),
{
    let mut chunks: Vec<(u64, u64)> = Vec::new();
    let mut start: u64 = 0;
    while start < total
        invariant
            start <= total,
            chunks@ + chunk_plan_spec(start as nat, total as nat) == chunk_plan_spec(0, total as nat),
        decreases total - start,
    {
        let stop = if total - start >= CHUNK_SIZE { start + CHUNK_SIZE - 1 } else { total - 1 };
        proof {
            let rest = chunk_plan_spec((stop + 1) as nat, total as nat);
            assert(chunk_plan_spec(start as nat, total as nat) == seq![(start, stop)] + rest);
            assert(chunks@.push((start, stop)) + rest =~= chunks@ + (seq![(start, stop)] + rest));
        }
        chunks.push((start, stop));
        start = stop + 1;
    }
    proof {
        assert(chunks@ + chunk_plan_spec(start as nat, total as nat) =~= chunks@);
    }
    chunks
}

/// Chunk `k` of the plan from `start` begins at `start + k * CHUNK_SIZE`;
/// every chunk but the last is full, and the last ends at `total - 1`.
pub proof fn law_chunks_tile_the_file(start: nat, total: nat)
    requires
        total <= u64::MAX,
    ensures
        ({
            let plan = chunk_plan_spec(start, total);
            &&& plan.len() == if start >= total { 0 } else { ((total - start) + CHUNK_SIZE - 1) / (CHUNK_SIZE as int) }
            &&& forall|k: int| 0 <= k < plan.len() ==> (#[trigger] plan[k]).0 == start + k * CHUNK_SIZE
            &&& forall|k: int| 0 <= k < plan.len() ==> plan[k].0 <= (#[trigger] plan[k]).1 < total
            &&& forall|k: int| 0 <= k < plan.len() - 1 ==> (#[trigger] plan[k]).1 - plan[k].0 + 1 == CHUNK_SIZE
            &&& plan.len() > 0 ==> plan[plan.len() - 1].1 == total - 1
        }),
    decreases total - start,
{
    if start < total {
        let stop: nat = if start + CHUNK_SIZE <= total { (start + CHUNK_SIZE - 1) as nat } else { (total - 1) as nat };
        law_chunks_tile_the_file(stop + 1, total);
        let plan = chunk_plan_spec(start, total);
        let rest = chunk_plan_spec(stop + 1, total);
        assert(plan == seq![(start as u64, stop as u64)] + rest);
        assert(plan[0].0 == start && plan[0].1 == stop);
        assert forall|k: int| 0 <= k < plan.len() implies (#[trigger] plan[k]).0 == start + k * CHUNK_SIZE by {
            if k > 0 {
                assert(plan[k] == rest[k - 1]);
                assert(rest.len() > 0);
                assert(stop + 1 < total);
                assert(stop + 1 == start + CHUNK_SIZE);
                assert(rest[k - 1].0 == (stop + 1) + (k - 1) * CHUNK_SIZE);
                assert((start + CHUNK_SIZE) + (k - 1) * CHUNK_SIZE == start + k * CHUNK_SIZE) by (nonlinear_arith);
            } else {
                assert(plan[k].0 == start);
            }
        }
        assert forall|k: int| 0 <= k < plan.len() implies plan[k].0 <= (#[trigger] plan[k]).1 < total by {
            if k > 0 {
                assert(plan[k] == rest[k - 1]);
            }
        }
        assert forall|k: int| 0 <= k < plan.len() - 1 implies (#[trigger] plan[k]).1 - plan[k].0 + 1 == CHUNK_SIZE by {
            if k > 0 {
                assert(plan[k] == rest[k - 1]);
            }
        }
        if rest.len() > 0 {
            assert(plan[plan.len() - 1] == rest[rest.len() - 1]);
        }
        if stop + 1 >= total {
            assert(start + CHUNK_SIZE >= total);
            let d: int = total - start;
            assert((d + CHUNK_SIZE - 1) / (CHUNK_SIZE as int) == 1) by (nonlinear_arith)
                requires 1 <= d <= CHUNK_SIZE;
        } else {
            assert(stop + 1 == start + CHUNK_SIZE);
            let d: int = total - start;
            let c: int = CHUNK_SIZE as int;
            assert((d + c - 1) / c == ((d - c) + c - 1) / c + 1) by (nonlinear_arith)
                requires c > 0, d > c;
        }
    }
}

/// The path's text ends in the parent-directory component `..`: it is `..`
/// itself or it ends in `/..`.
pub open spec fn ends_in_parent_dir(path: Seq<char>) -> bool {
    path == seq!['.', '.'] || ends_with_spec(path, seq!['/', '.', '.'])
}

/// The path holds neither `\` nor `:`, so no system reads a prefix (such as
/// a drive or a verbatim `\\?\` path) into it and `/` is a separator wherever
/// it stands.
pub open spec fn prefix_free(path: Seq<char>) -> bool {
    forall|i: int| 0 <= i < path.len() ==> #[trigger] path[i] != '\\' && path[i] != ':'
}

/// A prefix-free path that std documents as having no file name: the root
/// `/`, or one that ends in `..`.
pub open spec fn has_no_file_name(path: Seq<char>) -> bool {
    prefix_free(path) && (path == seq!['/'] || ends_in_parent_dir(path))
}

/// Index of the last `/` in `p`, or `-1` where there is none.
pub open spec fn last_slash(p: Seq<char>) -> int
    decreases p.len(),
{
    if p.len() == 0 {
        -1
    } else if p.last() == '/' {
        p.len() - 1
    } else {
        last_slash(p.drop_last())
    }
}

/// The text after the last `/`.
pub open spec fn final_component(p: Seq<char>) -> Seq<char> {
    p.subrange(last_slash(p) + 1, p.len() as int)
}

/// The text of the directory that holds the last component: what comes before
/// the last `/`, the root `/` itself when that slash opens the path, and
/// nothing when there is no `/`.
pub open spec fn parent_text(p: Seq<char>) -> Seq<char> {
    let k = last_slash(p);
    if k < 0 {
        seq![]
    } else if k == 0 {
        seq!['/']
    } else {
        p.subrange(0, k)
    }
}

/// A component that is an ordinary name: not empty, not `.` or `..`, and
/// holding neither separator (`/`, `\`) nor `:`, which opens a prefix on some
/// systems.
pub open spec fn plain_name(c: Seq<char>) -> bool {
    &&& c.len() > 0
    &&& c != seq!['.']
    &&& c != seq!['.', '.']
    &&& forall|i: int| 0 <= i < c.len() ==> #[trigger] c[i] != '/' && c[i] != '\\' && c[i] != ':'
}

/// A path written as ordinary names joined by single `/`, after an optional
/// root `/`: no `\` or `:`, no empty, `.` or `..` component, no trailing `/`.
/// Such a path splits into the same components on every platform.
pub open spec fn plain_path(p: Seq<char>) -> bool {
    &&& p.len() > 0
    &&& p.last() != '/'
    &&& prefix_free(p)
    &&& forall|i: int| 0 < i < p.len() && #[trigger] p[i] == '/' ==> p[i - 1] != '/'
    &&& forall|i: int|
        0 <= i < p.len() && #[trigger] p[i] == '.' && (i == 0 || p[i - 1] == '/') ==> {
            &&& i + 1 < p.len()
            &&& p[i + 1] != '/'
            &&& !(p[i + 1] == '.' && (i + 2 == p.len() || p[i + 2] == '/'))
        }
}

/// `r` is `name` placed in directory `dir`: appended directly where `dir` is
/// empty or ends in a separator, else after one separator, `/` or `\`
/// (whichever is the platform's main separator).
pub open spec fn joined_path(r: Seq<char>, dir: Seq<char>, name: Seq<char>) -> bool {
    if dir.len() == 0 || dir.last() == '/' {
        r == dir + name
    } else {
        r == dir + seq!['/'] + name || r == dir + seq!['\\'] + name
    }
}

proof fn lemma_last_slash(p: Seq<char>)
    ensures
        -1 <= last_slash(p) < p.len(),
        last_slash(p) >= 0 ==> p[last_slash(p)] == '/',
        forall|i: int| last_slash(p) < i < p.len() ==> #[trigger] p[i] != '/',
    decreases p.len(),
{
    if p.len() > 0 && p.last() != '/' {
        lemma_last_slash(p.drop_last());
        assert forall|i: int| last_slash(p) < i < p.len() implies #[trigger] p[i] != '/' by {
            if i < p.len() - 1 {
                assert(p[i] == p.drop_last()[i]);
            }
        }
    }
}

/// The last component of a plain path is an ordinary name.
proof fn lemma_plain_final_component(p: Seq<char>)
    requires
        plain_path(p),
    ensures
        plain_name(final_component(p)),
{
    lemma_last_slash(p);
    let k = last_slash(p);
    let f = final_component(p);
    assert(k < p.len() - 1);
    assert forall|i: int| 0 <= i < f.len() implies #[trigger] f[i] != '/' && f[i] != '\\' && f[i] != ':' by {
        assert(f[i] == p[k + 1 + i]);
    }
    if f == seq!['.'] {
        assert(f[0] == p[k + 1]);
        assert(p[k + 1] == '.');
    }
    if f == seq!['.', '.'] {
        assert(f.len() == 2);
        assert(k + 3 == p.len());
        assert(f[0] == p[k + 1]);
        assert(f[1] == p[k + 2]);
        assert(p[k + 1] == '.');
        assert(p[k + 2] == '.');
        assert(k + 1 == 0 || p[k] == '/');
        assert(false);
    }
}

/// The name of a partial file for an ordinary name is an ordinary name.
proof fn lemma_plain_part_name(name: Seq<char>)
    requires
        plain_name(name),
    ensures
        plain_name(part_name_spec(name)),
{
    let q = part_name_spec(name);
    assert(q.len() >= 6);
    assert forall|i: int| 0 <= i < q.len() implies #[trigger] q[i] != '/' && q[i] != '\\' && q[i] != ':' by {
        if i < name.len() {
            assert(q[i] == name[i]);
        }
    }
    assert(q != seq!['.']) by {
        assert(seq!['.'].len() == 1);
    }
    assert(q != seq!['.', '.']) by {
        assert(seq!['.', '.'].len() == 2);
    }
}

/// `std::path::Path::file_name`, read back as text: the path's last
/// component, if it has one. The contract claims what std documents, only for
/// paths without `\` or `:` (where no platform reads a prefix and `/` always
/// separates): the root `/` and a path that terminates in `..` have no file
/// name, and a plain path's file name is its final component (the text after
/// its last `/`). What comes back for other paths follows the target
/// platform's syntax (other separators, prefixes such as verbatim paths, `.`
/// and repeated separators normalized away) and is left unsaid.
#[verifier::external_body]
fn file_name_of(path: &str) -> (r: Option<String>)
    ensures
        has_no_file_name(path@) ==> r is None,
        plain_path(path@) ==> r is Some && r.unwrap()@ == final_component(path@),
{
    match std::path::Path::new(path).file_name() {
        Some(name) => Some(name.to_string_lossy().into_owned()),
        None => None,
    }
}

/// `std::path::Path::with_file_name`, read back as text: the path with its
/// last component replaced by `name`, that is the path's parent with `name`
/// pushed onto it. The contract claims this for a plain path and an ordinary
/// name, where the parent's text is what precedes the last `/` (or the root);
/// which separator `push` inserts is the platform's main separator, so the
/// contract allows either `/` or `\`. Other paths and names are left unsaid.
#[verifier::external_body]
fn with_file_name(path: &str, name: &str) -> (r: String)
    ensures
        plain_path(path@) && plain_name(name@) ==> joined_path(r@, parent_text(path@), name@),
{
    std::path::Path::new(path).with_file_name(name).to_string_lossy().into_owned()
}

/// Why no partial-download path could be formed.
#[derive(Clone, Copy, Debug, PartialEq, Eq, Structural)]
pub enum PartPathError {
    /// The destination has no file name to extend.
    NoFileName,
}

/// `<name>.part`.
pub open spec fn part_name_spec(name: Seq<char>) -> Seq<char> {
    name + seq!['.', 'p', 'a', 'r', 't']
}

/// The name of the partial file for a file called `name`.
pub fn part_name(name: &str) -> (r: String)
    ensures
        r@ == part_name_spec(name@),
{
    let mut s = String::from_str(name);
    s.append(".part");
    proof {
        reveal_strlit(".part");
        assert(s@ =~= part_name_spec(name@));
    }
    s
}

/// Where a download to `destination` is written until it completes: the same
/// directory, the file name with `.part` appended (`part_name`). A destination
/// without a file name, such as the root or one that ends in `..`, is refused.
pub fn part_path(destination: &str) -> (r: Result<String, PartPathError>)
    ensures
        r matches Err(e) ==> e == PartPathError::NoFileName,
        has_no_file_name(destination@) ==> r == Err::<String, PartPathError>(
            PartPathError::NoFileName,
        ),
        plain_path(destination@) ==> (r matches Ok(p) && joined_path(
            p@,
            parent_text(destination@),
            part_name_spec(final_component(destination@)),
        )),
{
    match file_name_of(destination) {
        Some(name) => {
            let part = part_name(name.as_str());
            proof {
                if plain_path(destination@) {
                    lemma_plain_final_component(destination@);
                    lemma_plain_part_name(name@);
                }
            }
            Ok(with_file_name(destination, part.as_str()))
        },
        None => Err(PartPathError::NoFileName),
    }
}

/// A download request named a package the catalog does not hold.
#[derive(Clone, Debug)]
pub struct UnknownPackage {
    pub model_id: String,
}

/// Accepts a download request: the position of the requested package in the
/// catalog (the first with that id) and the operation, whose id is the
/// package id; an id the catalog lacks is refused.
pub fn start_download(catalog_ids: &Vec<String>, request: StartDownloadRequest) -> (r: Result<(usize, StartDownloadResponse), UnknownPackage>)
    ensures
        match r {
            Ok((k, response)) => {
                &&& k < catalog_ids@.len()
                &&& catalog_ids@[k as int]@ == request.model_id@
                &&& forall|j: int| 0 <= j < k ==> (#[trigger] catalog_ids@[j])@ != request.model_id@
                &&& response.operation_id@ == request.model_id@
            },
            Err(e) => {
                &&& e.model_id@ == request.model_id@
                &&& forall|j: int| 0 <= j < catalog_ids@.len() ==> (#[trigger] catalog_ids@[j])@ != request.model_id@
            },
        },
{
    let mut i: usize = 0;
    while i < catalog_ids.len()
        invariant
            i <= catalog_ids@.len(),
            forall|j: int| 0 <= j < i ==> (#[trigger] catalog_ids@[j])@ != request.model_id@,
        decreases catalog_ids.len() - i,
    {
        if catalog_ids[i] == request.model_id {
            return Ok((i, StartDownloadResponse { operation_id: request.model_id }));
        }
        i += 1;
    }
    Err(UnknownPackage { model_id: request.model_id })
}

/// Bytes received and expected for one transfer, as reported to listeners.
#[derive(Clone, Copy, Debug)]
pub struct TransferProgress {
    pub downloaded: u64,
    pub total: Option<u64>,
}

impl TransferProgress {
    /// A transfer of unknown size that has received nothing.
    pub fn new() -> (p: Self)
        ensures
            p.downloaded == 0,
            p.total is None,
    {
        TransferProgress { downloaded: 0, total: None }
    }

    /// Restarts the count for a transfer of `total` bytes, if known.
    pub fn start(&mut self, total: Option<u64>)
        ensures
            final(self).downloaded == 0,
            final(self).total == total,
    {
        self.total = total;
        self.downloaded = 0;
    }

    /// Counts `delta` more bytes, wrapping like an atomic counter.
    pub fn advance(&mut self, delta: usize)
        ensures
            final(self).downloaded == (old(self).downloaded + delta) % 0x1_0000_0000_0000_0000,
            final(self).total == old(self).total,
    {
        self.downloaded = self.downloaded.wrapping_add(delta as u64);
    }

    /// The event that reports this progress with `status`.
    pub fn report(&self, filename: &str, status: DownloadStatus) -> (e: DownloadProgress)
        ensures
            e.id@ == filename@,
            e.filename@ == filename@,
            e.downloaded == self.downloaded,
            e.total == self.total,
            e.status == status,
    {
        DownloadProgress {
            id: String::from_str(filename),
            filename: String::from_str(filename),
            downloaded: self.downloaded,
            total: self.total,
            status,
        }
    }
}

/// Whether an error message reports HTTP 401 or 403.
pub open spec fn access_denied(message: Seq<char>) -> bool {
    contains_spec(message, seq!['4', '0', '1']) || contains_spec(message, seq!['4', '0', '3'])
}

/// What the machine's token situation is, for the hint.
pub open spec fn token_state(has_token: bool) -> Seq<char> {
    if has_token {
        "the token found on this machine does not have access"@
    } else {
        "no HuggingFace token was found on this machine"@
    }
}

/// The hint added to a refused download from a gated repository.
pub open spec fn access_hint_spec(repo: Seq<char>, has_token: bool) -> Seq<char> {
    "`"@ + repo + "` is a gated repository and "@ + token_state(has_token) + ". Accept the terms at https://huggingface.co/"@
        + repo + ", then add a token in Settings under API keys (or set HF_TOKEN, or run `hf auth login`)"@
}

/// For an error whose message reports HTTP 401 or 403, the hint that names
/// both fixes (accept the repository's terms, provide a token); nothing for
/// any other error.
pub fn access_hint(message: &str, repo: &str, has_token: bool) -> (r: Option<String>)
    ensures
        access_denied(message@) ==> (r matches Some(h) && h@ == access_hint_spec(repo@, has_token)),
        !access_denied(message@) ==> r is None,
{
    let text = chars_of(message);
    let unauthorized = chars_of("401");
    let forbidden = chars_of("403");
    proof {
        reveal_strlit("401");
        reveal_strlit("403");
        assert(unauthorized@ =~= seq!['4', '0', '1']);
        assert(forbidden@ =~= seq!['4', '0', '3']);
    }
    if !(contains(&text, &unauthorized) || contains(&text, &forbidden)) {
        return None;
    }
    let state = if has_token {
        "the token found on this machine does not have access"
    } else {
        "no HuggingFace token was found on this machine"
    };
    let mut hint = String::from_str("`");
    hint.append(repo);
    hint.append("` is a gated repository and ");
    hint.append(state);
    hint.append(". Accept the terms at https://huggingface.co/");
    hint.append(repo);
    hint.append(", then add a token in Settings under API keys (or set HF_TOKEN, or run `hf auth login`)");
    Some(hint)
}

/// The app's own token wins over the one found on the machine; clearing it,
/// or setting a blank one, falls back to the machine's; a set token is
/// trimmed.
pub proof fn law_configured_token_wins(discovered: Option<Seq<char>>, token: Option<Seq<char>>)
    ensures
        token_in_force(configured_token(token), discovered) == match token {
            Some(t) => if trim_spec(t).len() > 0 { Some(trim_spec(t)) } else { discovered },
            None => discovered,
        },
{
}

/// A request carries the token only to HTTPS on `huggingface.co` or one of
/// its subdomains, and only when a token is in force.
pub proof fn law_token_stays_on_huggingface(configured: Option<Seq<char>>, discovered: Option<Seq<char>>, url: Seq<char>)
    ensures
        (match token_in_force(configured, discovered) {
            Some(t) => if (match parsed_url(url) {
                Some((scheme, host)) => hf_location(scheme, host),
                None => false,
            }) {
                Some(bearer(t))
            } else {
                None
            },
            None => None,
        }) is Some ==> (parsed_url(url) matches Some((scheme, host)) && scheme == https_spec() && (host matches Some(h) && is_hf_host(h))),
{
}

/// The value of a decimal digit character.
pub open spec fn digit_value(c: char) -> int {
    c as int - 48
}

pub open spec fn is_digit(c: char) -> bool {
    48 <= c as int <= 57
}

/// The number a run of decimal digits spells.
pub open spec fn digits_value(s: Seq<char>) -> int
    decreases s.len(),
{
    if s.len() == 0 {
        0
    } else {
        digits_value(s.drop_last()) * 10 + digit_value(s.last())
    }
}

/// The digits of an unsigned number: an optional `+`, then at least one
/// digit and nothing else.
pub open spec fn unsigned_digits(s: Seq<char>) -> Option<Seq<char>> {
    if unsigned_body(s).len() > 0 && all_digits(unsigned_body(s)) {
        Some(unsigned_body(s))
    } else {
        None
    }
}

/// `s` without one leading `+`.
pub open spec fn unsigned_body(s: Seq<char>) -> Seq<char> {
    if s.len() > 0 && s[0] == '+' {
        s.drop_first()
    } else {
        s
    }
}

pub open spec fn all_digits(s: Seq<char>) -> bool {
    forall|i: int| 0 <= i < s.len() ==> is_digit(#[trigger] s[i])
}

/// A `Content-Length` value: surrounding whitespace ignored, then an
/// unsigned decimal that fits in 64 bits.
pub open spec fn content_length_spec(value: Seq<char>) -> Option<u64> {
    match unsigned_digits(trim_spec(value)) {
        Some(d) => if digits_value(d) <= u64::MAX {
            Some(digits_value(d) as u64)
        } else {
            None
        },
        None => None,
    }
}

/// A `Content-Length` value did not hold a size.
#[derive(Clone, Copy, Debug, PartialEq, Eq, Structural)]
pub struct InvalidContentLength;

/// The size a `Content-Length` header announces.
pub fn parse_content_length(value: &str) -> (r: Result<u64, InvalidContentLength>)
    ensures
        match content_length_spec(value@) {
            Some(n) => r == Ok::<u64, InvalidContentLength>(n),
            None => r == Err::<u64, InvalidContentLength>(InvalidContentLength),
        },
{
    let trimmed = trim(value);
    let chars = chars_of(trimmed.as_str());
    let ghost t = trim_spec(value@);
    let start: usize = if chars.len() > 0 && chars[0] == '+' { 1 } else { 0 };
    let ghost body = unsigned_body(t);
    proof {
        assert(chars@.skip(start as int) =~= body);
    }
    if start >= chars.len() {
        return Err(InvalidContentLength);
    }
    let mut value_so_far: u64 = 0;
    let mut i: usize = start;
    while i < chars.len()
        invariant
            chars@ == t,
            t == trim_spec(value@),
            body == unsigned_body(t),
            start <= i <= chars@.len(),
            body == chars@.skip(start as int),
            forall|k: int| 0 <= k < i - start ==> is_digit(#[trigger] body[k]),
            value_so_far as int == digits_value(body.take(i - start)),
        decreases chars.len() - i,
    {
        let c = chars[i];
        proof {
            assert(body[i - start] == c);
        }
        if !('0' <= c && c <= '9') {
            proof {
                assert(!is_digit(body[i - start]));
                assert(!all_digits(body));
            }
            return Err(InvalidContentLength);
        }
        let d = (c as u32 - 48) as u64;
        proof {
            assert(body.take(i - start + 1).drop_last() =~= body.take(i - start));
            assert(body.take(i - start + 1).last() == c);
            assert(digits_value(body.take(i - start + 1)) == digits_value(body.take(i - start)) * 10 + digit_value(c));
        }
        if value_so_far > (u64::MAX - d) / 10 {
            proof {
                assert(value_so_far * 10 + d > u64::MAX) by (nonlinear_arith)
                    requires value_so_far > (u64::MAX - d) / 10, d <= 9;
                if all_digits(body) {
                    lemma_digits_grow(body, i - start + 1, body.len() as int);
                    assert(body.take(body.len() as int) =~= body);
                    assert(digits_value(body) > u64::MAX);
                }
                assert(unsigned_digits(t) is None || digits_value(unsigned_digits(t)->0) > u64::MAX);
            }
            return Err(InvalidContentLength);
        }
        value_so_far = value_so_far * 10 + d;
        i += 1;
    }
    proof {
        assert(body.take(body.len() as int) =~= body);
    }
    Ok(value_so_far)
}

/// Appending digits never makes a number smaller.
proof fn lemma_digits_grow(s: Seq<char>, m: int, n: int)
    requires
        0 <= m <= n <= s.len(),
        forall|k: int| 0 <= k < n ==> is_digit(#[trigger] s[k]),
    ensures
        digits_value(s.take(m)) <= digits_value(s.take(n)),
        digits_value(s.take(m)) >= 0,
    decreases n - m,
{
    if n > m {
        lemma_digits_grow(s, m, n - 1);
        assert(s.take(n).drop_last() =~= s.take(n - 1));
        assert(s.take(n).last() == s[n - 1]);
        lemma_digits_nonneg(s.take(n - 1));
    } else {
        lemma_digits_nonneg(s.take(m));
    }
}

proof fn lemma_digits_nonneg(s: Seq<char>)
    requires
        forall|k: int| 0 <= k < s.len() ==> is_digit(#[trigger] s[k]),
    ensures
        digits_value(s) >= 0,
    decreases s.len(),
{
    if s.len() > 0 {
        assert forall|k: int| 0 <= k < s.drop_last().len() implies is_digit(#[trigger] s.drop_last()[k]) by {
            assert(s.drop_last()[k] == s[k]);
        }
        lemma_digits_nonneg(s.drop_last());
    }
}

} // verus!
