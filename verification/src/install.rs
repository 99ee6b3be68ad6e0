//! Decisions the Flap installers make: which release asset is the bare binary, whether a
//! download is plausible, and how the install directory joins the user's `PATH`.
use vstd::prelude::*;
use vstd::string::*;
use crate::text::chars_of;

verus! {

broadcast use vstd::string::group_string_axioms;

/// `p` occurs in `s` starting at `i`.
pub open spec fn occurs_at(s: Seq<char>, p: Seq<char>, i: int) -> bool {
    0 <= i && i + p.len() <= s.len() && s.subrange(i, i + p.len()) == p
}

/// `p` occurs somewhere in `s` (the empty text occurs everywhere).
pub open spec fn contains_text(s: Seq<char>, p: Seq<char>) -> bool {
    exists|i: int| occurs_at(s, p, i)
}

/// `s` ends with `p`.
pub open spec fn ends_with_text(s: Seq<char>, p: Seq<char>) -> bool {
    p.len() <= s.len() && s.subrange(s.len() - p.len(), s.len() as int) == p
}

fn matches_at(s: &Vec<char>, p: &Vec<char>, i: usize) -> (r: bool)
    requires
        i + p@.len() <= s@.len(),
    ensures
        r == occurs_at(s@, p@, i as int),
{
    let n = s.len();
    let mut k: usize = 0;
    while k < p.len()
        invariant
            n == s@.len(),
            i + p@.len() <= s@.len(),
            k <= p@.len(),
            forall|j: int| 0 <= j < k ==> s@[i + j] == p@[j],
        decreases p@.len() - k,
    {
        if s[i + k] != p[k] {
            assert(s@.subrange(i as int, i + p@.len())[k as int] != p@[k as int]);
            return false;
        }
        k = k + 1;
    }
    assert(s@.subrange(i as int, i + p@.len()) =~= p@);
    true
}

/// Whether `pattern` occurs in `s`, as `str::contains` answers.
pub fn text_contains(s: &str, pattern: &str) -> (r: bool)
    ensures
        r == contains_text(s@, pattern@),
{
    let sc = chars_of(s);
    let pc = chars_of(pattern);
    if pc.len() > sc.len() {
        assert forall|i: int| !occurs_at(s@, pattern@, i) by {}
        return false;
    }
    let last = sc.len() - pc.len();
    let mut i: usize = 0;
    loop
        invariant
            sc@ == s@,
            pc@ == pattern@,
            last == sc@.len() - pc@.len(),
            i <= last,
            forall|j: int| 0 <= j < i ==> !occurs_at(s@, pattern@, j),
        decreases last - i,
    {
        if matches_at(&sc, &pc, i) {
            return true;
        }
        if i == last {
            assert forall|j: int| !occurs_at(s@, pattern@, j) by {
                if 0 <= j && j + pattern@.len() <= s@.len() {
                    assert(j <= i);
                }
            }
            return false;
        }
        i = i + 1;
    }
}

/// Whether `s` ends with `suffix`, as `str::ends_with` answers.
pub fn text_ends_with(s: &str, suffix: &str) -> (r: bool)
    ensures
        r == ends_with_text(s@, suffix@),
{
    let sc = chars_of(s);
    let pc = chars_of(suffix);
    if pc.len() > sc.len() {
        return false;
    }
    matches_at(&sc, &pc, sc.len() - pc.len())
}

/// A release asset is the bare binary for `target` when its name mentions the target,
/// is an `.exe` or has no extension at all, and is not an installer.
pub open spec fn is_binary_asset_spec(name: Seq<char>, target: Seq<char>) -> bool {
    &&& contains_text(name, target)
    &&& (ends_with_text(name, ".exe"@) || !contains_text(name, "."@))
    &&& !contains_text(name, "installer"@)
}

/// Whether the asset called `name` is the bare binary for `target`.
pub fn is_binary_asset(name: &str, target: &str) -> (r: bool)
    ensures
        r == is_binary_asset_spec(name@, target@),
{
    text_contains(name, target) && (text_ends_with(name, ".exe") || !text_contains(name, "."))
        && !text_contains(name, "installer")
}

/// A release asset: its file name and where to download it.
pub struct Asset {
    pub name: String,
    pub url: String,
}

/// The name of the `k`th asset.
pub open spec fn asset_name(assets: Seq<Asset>, k: int) -> Seq<char> {
    assets[k].name@
}

/// The first asset, in release order, that is the bare binary for `target`.
pub fn pick_binary_asset(assets: &Vec<Asset>, target: &str) -> (r: Option<usize>)
    ensures
        match r {
            Some(k) => k < assets@.len() && is_binary_asset_spec(asset_name(assets@, k as int), target@)
                && forall|j: int| 0 <= j < k ==> !is_binary_asset_spec(#[trigger] asset_name(assets@, j), target@),
            None => forall|j: int| 0 <= j < assets@.len() ==> !is_binary_asset_spec(#[trigger] asset_name(assets@, j), target@),
        },
{
    let mut i: usize = 0;
    while i < assets.len()
        invariant
            i <= assets@.len(),
            forall|j: int| 0 <= j < i ==> !is_binary_asset_spec(#[trigger] asset_name(assets@, j), target@),
        decreases assets@.len() - i,
    {
        if is_binary_asset(assets[i].name.as_str(), target) {
            return Some(i);
        }
        i = i + 1;
    }
    None
}

/// The asset name mentions `target` and, when one is given, `identifier`.
pub open spec fn fits_target(name: Seq<char>, target: Seq<char>, identifier: Option<&str>) -> bool {
    &&& contains_text(name, target)
    &&& match identifier {
        Some(i) => contains_text(name, i@),
        None => true,
    }
}

/// The name mentions `identifier`, when one is given.
pub open spec fn has_identifier(name: Seq<char>, identifier: Option<&str>) -> bool {
    match identifier {
        Some(i) => contains_text(name, i@),
        None => true,
    }
}

/// `a` is the `k`th asset, name and download URL alike.
pub open spec fn is_asset(assets: Seq<Asset>, k: int, a: Asset) -> bool {
    &&& 0 <= k < assets.len()
    &&& a.name@ == assets[k].name@
    &&& a.url@ == assets[k].url@
}

/// `k` is the first asset whose name fits `target` and `identifier`.
pub open spec fn first_fit(assets: Seq<Asset>, k: int, target: Seq<char>, identifier: Option<&str>) -> bool {
    &&& 0 <= k < assets.len()
    &&& fits_target(asset_name(assets, k), target, identifier)
    &&& forall|j: int| 0 <= j < k ==> !fits_target(#[trigger] asset_name(assets, j), target, identifier)
}

/// Where some asset fits, a first one does.
proof fn lemma_first_fit(assets: Seq<Asset>, k: int, target: Seq<char>, identifier: Option<&str>)
    requires
        0 <= k < assets.len(),
        fits_target(asset_name(assets, k), target, identifier),
    ensures
        exists|f: int| first_fit(assets, f, target, identifier),
    decreases k,
{
    if exists|j: int| 0 <= j < k && fits_target(#[trigger] asset_name(assets, j), target, identifier) {
        let j = choose|j: int| 0 <= j < k && fits_target(#[trigger] asset_name(assets, j), target, identifier);
        lemma_first_fit(assets, j, target, identifier);
    } else {
        assert(first_fit(assets, k, target, identifier));
    }
}

/// Calls self_update's `Release::asset_for(target, identifier)` on a release whose assets
/// are these, in order, and hands back the asset it picks.
/// What is claimed: the pick is one of the assets and its name holds `identifier` when one
/// is given; where some name holds both `target` and `identifier`, the pick is the first
/// such asset; with an `identifier` given, there is a pick exactly when some name holds it.
/// Left unsaid: when no name fits `target`, which asset is picked, since `asset_for` first
/// looks for a name that holds the operating system and the architecture this program was
/// built for, which depends on the machine, before taking the first name that holds
/// `identifier`.
#[verifier::external_body]
fn release_asset_for(assets: &Vec<Asset>, target: &str, identifier: Option<&str>) -> (r: Option<Asset>)
    ensures
        r is Some ==> exists|k: int| is_asset(assets@, k, r->0),
        r is Some ==> has_identifier((r->0).name@, identifier),
        r is None ==> forall|k: int| 0 <= k < assets@.len() ==> !fits_target(
            #[trigger] asset_name(assets@, k), target@, identifier),
        r is Some ==> forall|k: int| first_fit(assets@, k, target@, identifier) ==> is_asset(assets@, k, r->0),
        r is Some ==> identifier is None || exists|k: int| 0 <= k < assets@.len() && has_identifier(
            #[trigger] asset_name(assets@, k), identifier),
        identifier is Some && (exists|k: int| 0 <= k < assets@.len() && has_identifier(
            #[trigger] asset_name(assets@, k), identifier)) ==> r is Some,
{
    let release = self_update::update::Release {
        assets: assets.iter().map(|a| self_update::update::ReleaseAsset {
            name: a.name.clone(),
            download_url: a.url.clone(),
        }).collect(),
        ..Default::default()
    };
    release.asset_for(target, identifier).map(|a| Asset { name: a.name, url: a.download_url })
}

/// Some asset is the bare binary for `target`.
pub open spec fn has_binary(assets: Seq<Asset>, target: Seq<char>) -> bool {
    exists|k: int| 0 <= k < assets.len() && is_binary_asset_spec(#[trigger] asset_name(assets, k), target)
}

/// `k` is the first asset that is the bare binary for `target`.
pub open spec fn first_binary(assets: Seq<Asset>, k: int, target: Seq<char>) -> bool {
    &&& 0 <= k < assets.len()
    &&& is_binary_asset_spec(asset_name(assets, k), target)
    &&& forall|j: int| 0 <= j < k ==> !is_binary_asset_spec(#[trigger] asset_name(assets, j), target)
}

/// Some asset name fits `target` and `identifier`.
pub open spec fn has_fit(assets: Seq<Asset>, target: Seq<char>, identifier: Option<&str>) -> bool {
    exists|k: int| 0 <= k < assets.len() && fits_target(#[trigger] asset_name(assets, k), target, identifier)
}

/// What the installer downloads from a release, and whether it is an archive: the first
/// bare binary for `target` when there is one, else the archive that `asset_for` picks with
/// the extension `ext`; `None` when neither exists.
pub fn choose_download(assets: &Vec<Asset>, target: &str, ext: &str) -> (r: Option<(Asset, bool)>)
    ensures
        has_binary(assets@, target@) ==> r is Some && !(r->0).1 && exists|k: int|
            first_binary(assets@, k, target@) && is_asset(assets@, k, (r->0).0),
        !has_binary(assets@, target@) && r is Some ==> (r->0).1 && exists|k: int|
            is_asset(assets@, k, (r->0).0) && contains_text(asset_name(assets@, k), ext@),
        !has_binary(assets@, target@) && has_fit(assets@, target@, Some(ext)) ==> r is Some
            && exists|k: int| first_fit(assets@, k, target@, Some(ext)) && is_asset(assets@, k, (r->0).0),
        !has_binary(assets@, target@) && (forall|k: int| 0 <= k < assets@.len() ==> !contains_text(
            #[trigger] asset_name(assets@, k), ext@)) ==> r is None,
        !has_binary(assets@, target@) && (exists|k: int| 0 <= k < assets@.len() && contains_text(
            #[trigger] asset_name(assets@, k), ext@)) ==> r is Some && (r->0).1,
{
    match pick_binary_asset(assets, target) {
        Some(k) => {
            let a = Asset { name: assets[k].name.clone(), url: assets[k].url.clone() };
            proof {
                assert(first_binary(assets@, k as int, target@) && is_asset(assets@, k as int, a));
            }
            Some((a, false))
        },
        None => {
            proof {
                assert(!has_binary(assets@, target@));
            }
            match release_asset_for(assets, target, Some(ext)) {
                Some(a) => {
                    let ghost k = choose|k: int| is_asset(assets@, k, a);
                    let ghost f = choose|f: int| first_fit(assets@, f, target@, Some(ext));
                    proof {
                        if has_fit(assets@, target@, Some(ext)) {
                            let j = choose|j: int| 0 <= j < assets@.len() && fits_target(#[trigger] asset_name(assets@, j), target@, Some(ext));
                            lemma_first_fit(assets@, j, target@, Some(ext));
                        }
                    }
                    let out = Some((a, true));
                    proof {
                        assert(is_asset(assets@, k, (out->0).0));
                        assert(contains_text(asset_name(assets@, k), ext@));
                        if has_fit(assets@, target@, Some(ext)) {
                            assert(first_fit(assets@, f, target@, Some(ext)));
                            assert(is_asset(assets@, f, (out->0).0));
                        }
                    }
                    out
                },
                None => {
                    proof {
                        if has_fit(assets@, target@, Some(ext)) {
                            let k = choose|k: int| 0 <= k < assets@.len() && fits_target(#[trigger] asset_name(assets@, k), target@, Some(ext));
                            assert(!fits_target(asset_name(assets@, k), target@, Some(ext)));
                        }
                    }
                    None
                },
            }
        },
    }
}

/// What the Windows bootstrap installer downloads: the asset that `asset_for` picks for
/// `target` with no extension asked for. Where some asset name mentions `target`, it is the
/// first such asset.
pub fn choose_init_download(assets: &Vec<Asset>, target: &str) -> (r: Option<Asset>)
    ensures
        r is Some ==> exists|k: int| is_asset(assets@, k, r->0),
        (exists|k: int| 0 <= k < assets@.len() && contains_text(#[trigger] asset_name(assets@, k), target@))
            ==> (r is Some && exists|k: int| first_fit(assets@, k, target@, None) && is_asset(assets@, k, r->0)),
{
    let r = release_asset_for(assets, target, None);
    proof {
        if exists|k: int| 0 <= k < assets@.len() && contains_text(#[trigger] asset_name(assets@, k), target@) {
            let k = choose|k: int| 0 <= k < assets@.len() && contains_text(#[trigger] asset_name(assets@, k), target@);
            assert(fits_target(asset_name(assets@, k), target@, None));
            lemma_first_fit(assets@, k, target@, None);
            let f = choose|f: int| first_fit(assets@, f, target@, None);
            assert(r is Some);
            assert(is_asset(assets@, f, r->0));
        }
    }
    r
}

/// A downloaded asset smaller than this many bytes is taken for an error page.
pub const MIN_ASSET_BYTES: u64 = 10 * 1024;

/// Whether a download of `size` bytes is too small to be a release asset.
pub fn download_too_small(size: u64) -> (r: bool)
    ensures
        r == (size < 10240),
{
    size < MIN_ASSET_BYTES
}

/// The `PATH` value with `dir` appended after a `;`, or `dir` alone when `PATH` is empty;
/// `None` when `dir` already occurs in it.
pub open spec fn path_with_dir_spec(current: Seq<char>, dir: Seq<char>) -> Option<Seq<char>> {
    if contains_text(current, dir) {
        None
    } else if current.len() == 0 {
        Some(dir)
    } else {
        Some(current + ";"@ + dir)
    }
}

/// The Windows `PATH` value that includes `dir`, or `None` when it already does.
pub fn path_with_dir(current: &str, dir: &str) -> (r: Option<String>)
    ensures
        match path_with_dir_spec(current@, dir@) {
            Some(p) => r matches Some(s) && s@ == p,
            None => r is None,
        },
{
    if text_contains(current, dir) {
        return None;
    }
    let cc = chars_of(current);
    if cc.len() == 0 {
        return Some(String::from_str(dir));
    }
    let mut s = String::from_str(current);
    s.append(";");
    s.append(dir);
    Some(s)
}

/// The shell line that puts `dir` in front of `PATH`.
pub fn path_export_line(dir: &str) -> (r: String)
    ensures
        r@ == "export PATH=\""@ + dir@ + ":$PATH\""@,
{
    let mut s = String::from_str("export PATH=\"");
    s.append(dir);
    s.append(":$PATH\"");
    s
}

} // verus!
