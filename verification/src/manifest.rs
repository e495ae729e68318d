//! Manifests: the root block of a revision. A manifest names the build that
//! wrote it, the manifest before it, and the root node.

use vstd::prelude::*;
use crate::cid::{default_cid, Cid, CidView};
use crate::codec::{ipld_cid, ipld_to_cid, structured_cid};
use crate::ipld::{dict_view, lemma_dict_view, lemma_dict_view_empty, lemma_dict_view_insert, Ipld, IpldView};
use crate::sorted_map::SortedMap;

verus! {

/// The build that wrote a manifest.
#[derive(Debug, PartialEq, Eq)]
pub struct Version {
    pub build_profile: String,
    pub build_features: String,
    pub repo_version: String,
    pub version: String,
}

/// What a version is.
pub struct VersionView {
    pub build_profile: Seq<char>,
    pub build_features: Seq<char>,
    pub repo_version: Seq<char>,
    pub version: Seq<char>,
}

impl View for Version {
    type V = VersionView;

    open spec fn view(&self) -> VersionView {
        VersionView {
            build_profile: self.build_profile@,
            build_features: self.build_features@,
            repo_version: self.repo_version@,
            version: self.version@,
        }
    }
}

/// The version whose four parts are empty.
pub open spec fn empty_version() -> VersionView {
    VersionView {
        build_profile: Seq::empty(),
        build_features: Seq::empty(),
        repo_version: Seq::empty(),
        version: Seq::empty(),
    }
}

/// The names under which the four parts of a version are written.
pub open spec fn build_profile_key() -> Seq<char> {
    "build_profile"@
}

pub open spec fn build_features_key() -> Seq<char> {
    "build_features"@
}

pub open spec fn repo_version_key() -> Seq<char> {
    "repo_version"@
}

pub open spec fn version_key() -> Seq<char> {
    "version"@
}

/// The names under which the two links of a manifest are written.
pub open spec fn previous_key() -> Seq<char> {
    "previous"@
}

pub open spec fn data_key() -> Seq<char> {
    "data"@
}

/// The names of the written forms of versions and manifests differ.
pub proof fn lemma_manifest_keys_differ()
    ensures
        build_profile_key() != build_features_key(),
        build_profile_key() != repo_version_key(),
        build_profile_key() != version_key(),
        build_features_key() != repo_version_key(),
        build_features_key() != version_key(),
        repo_version_key() != version_key(),
        version_key() != previous_key(),
        version_key() != data_key(),
        previous_key() != data_key(),
{
    reveal_strlit("build_profile");
    reveal_strlit("build_features");
    reveal_strlit("repo_version");
    reveal_strlit("version");
    reveal_strlit("previous");
    reveal_strlit("data");
    assert("build_profile"@.len() == 13 && "build_features"@.len() == 14);
    assert("repo_version"@.len() == 12 && "version"@.len() == 7);
    assert("previous"@.len() == 8 && "data"@.len() == 4);
}

/// The written form of a version.
pub open spec fn version_ipld(v: VersionView) -> IpldView {
    IpldView::Dict(
        Map::<Seq<char>, IpldView>::empty().insert(build_profile_key(), IpldView::String(v.build_profile)).insert(
            build_features_key(),
            IpldView::String(v.build_features),
        ).insert(repo_version_key(), IpldView::String(v.repo_version)).insert(
            version_key(),
            IpldView::String(v.version),
        ),
    )
}

/// Why a value is no version.
pub enum VersionErrorView {
    NotAMap,
    MissingField(Seq<char>),
}

/// Whether a map holds a text under a name.
pub open spec fn has_text(m: Map<Seq<char>, IpldView>, key: Seq<char>) -> bool {
    m.contains_key(key) && m[key] is String
}

/// The version that a value stands for, or why it stands for none.
pub open spec fn ipld_version(value: IpldView) -> Result<VersionView, VersionErrorView> {
    match value {
        IpldView::Dict(m) => {
            if !has_text(m, build_profile_key()) {
                Err(VersionErrorView::MissingField(build_profile_key()))
            } else if !has_text(m, build_features_key()) {
                Err(VersionErrorView::MissingField(build_features_key()))
            } else if !has_text(m, repo_version_key()) {
                Err(VersionErrorView::MissingField(repo_version_key()))
            } else if !has_text(m, version_key()) {
                Err(VersionErrorView::MissingField(version_key()))
            } else {
                Ok(
                    VersionView {
                        build_profile: m[build_profile_key()]->String_0,
                        build_features: m[build_features_key()]->String_0,
                        repo_version: m[repo_version_key()]->String_0,
                        version: m[version_key()]->String_0,
                    },
                )
            }
        },
        _ => Err(VersionErrorView::NotAMap),
    }
}

/// What a manifest is.
pub struct ManifestView {
    pub version: VersionView,
    pub previous: CidView,
    pub data: CidView,
}

/// The written form of the identifier of the manifest before: a link to
/// it, or null where it is the identifier for "none", which is too short for
/// a link that the codec reads back.
pub open spec fn previous_ipld(previous: CidView) -> IpldView {
    if previous == default_cid() {
        IpldView::Null
    } else {
        IpldView::Link(previous)
    }
}

/// The identifier that is written under the name of the manifest before.
pub open spec fn written_previous(m: Map<Seq<char>, IpldView>) -> Option<CidView> {
    if !m.contains_key(previous_key()) {
        None
    } else {
        match m[previous_key()] {
            IpldView::Link(cid) => Some(cid),
            IpldView::Null => Some(default_cid()),
            _ => None,
        }
    }
}

/// The written form of a manifest.
pub open spec fn manifest_ipld(m: ManifestView) -> IpldView {
    IpldView::Dict(
        Map::<Seq<char>, IpldView>::empty().insert(version_key(), version_ipld(m.version)).insert(
            previous_key(),
            previous_ipld(m.previous),
        ).insert(data_key(), IpldView::Link(m.data)),
    )
}

/// The identifier of a manifest's block, where the manifest has a block.
pub open spec fn manifest_cid(m: ManifestView) -> Option<CidView> {
    ipld_cid(manifest_ipld(m))
}

/// Why a value is no manifest.
pub enum ManifestErrorView {
    Version(VersionErrorView),
    MissingField(Seq<char>),
}

/// The names by which a manifest's missing parts are reported.
pub open spec fn previous_link_name() -> Seq<char> {
    "previous link"@
}

pub open spec fn data_link_name() -> Seq<char> {
    "data link"@
}

pub open spec fn map_name() -> Seq<char> {
    "map"@
}

/// The manifest that a value stands for, or why it stands for none.
pub open spec fn ipld_manifest(value: IpldView) -> Result<ManifestView, ManifestErrorView> {
    match value {
        IpldView::Dict(m) => {
            if !m.contains_key(version_key()) {
                Err(ManifestErrorView::MissingField(version_key()))
            } else if ipld_version(m[version_key()]) is Err {
                Err(ManifestErrorView::Version(ipld_version(m[version_key()])->Err_0))
            } else if written_previous(m) is None {
                Err(ManifestErrorView::MissingField(previous_link_name()))
            } else if !(m.contains_key(data_key()) && m[data_key()] is Link) {
                Err(ManifestErrorView::MissingField(data_link_name()))
            } else {
                Ok(
                    ManifestView {
                        version: ipld_version(m[version_key()])->Ok_0,
                        previous: written_previous(m)->0,
                        data: m[data_key()]->Link_0,
                    },
                )
            }
        },
        _ => Err(ManifestErrorView::MissingField(map_name())),
    }
}

/// Reading the written form of a version gives the version back.
pub proof fn lemma_version_round_trip(v: VersionView)
    ensures
        ipld_version(version_ipld(v)) == Ok::<VersionView, VersionErrorView>(v),
{
    lemma_manifest_keys_differ();
}

/// Reading the written form of a manifest gives the manifest back.
pub proof fn lemma_manifest_round_trip(m: ManifestView)
    ensures
        ipld_manifest(manifest_ipld(m)) == Ok::<ManifestView, ManifestErrorView>(m),
{
    lemma_manifest_keys_differ();
    lemma_version_round_trip(m.version);
}

/// Why a value is no version.
#[derive(Debug, PartialEq, Eq)]
pub enum VersionError {
    /// The value is no map.
    NotAMap,
    /// The map lacks this part, or holds no text there.
    MissingField(String),
}

impl View for VersionError {
    type V = VersionErrorView;

    open spec fn view(&self) -> VersionErrorView {
        match self {
            VersionError::NotAMap => VersionErrorView::NotAMap,
            VersionError::MissingField(name) => VersionErrorView::MissingField(name@),
        }
    }
}

/// Why a value is no manifest.
#[derive(Debug, PartialEq, Eq)]
pub enum ManifestError {
    /// The version of the manifest is no version.
    VersionError(VersionError),
    /// The value lacks this part.
    MissingField(String),
}

impl View for ManifestError {
    type V = ManifestErrorView;

    open spec fn view(&self) -> ManifestErrorView {
        match self {
            ManifestError::VersionError(e) => ManifestErrorView::Version(e@),
            ManifestError::MissingField(name) => ManifestErrorView::MissingField(name@),
        }
    }
}

/// The view of a result of reading a version.
pub open spec fn version_result_view(r: Result<Version, VersionError>) -> Result<VersionView, VersionErrorView> {
    match r {
        Ok(v) => Ok(v@),
        Err(e) => Err(e@),
    }
}

/// The view of a result of reading a manifest.
pub open spec fn manifest_result_view(r: Result<Manifest, ManifestError>) -> Result<ManifestView, ManifestErrorView> {
    match r {
        Ok(m) => Ok(m@),
        Err(e) => Err(e@),
    }
}

/// The text under `key`, where the map holds one there.
fn text_at(m: &SortedMap<Ipld>, key: &str) -> (r: Option<String>)
    ensures
        r is Some == has_text(dict_view(m@), key@),
        r is Some ==> r->0@ == dict_view(m@)[key@]->String_0,
{
    match m.get(key) {
        Some(Ipld::String(s)) => Some(s.clone()),
        _ => None,
    }
}

impl Version {
    /// The version of a build, from its four parts.
    pub fn new(build_profile: String, build_features: String, repo_version: String, version: String) -> (r: Version)
        ensures
            r@ == (VersionView {
                build_profile: build_profile@,
                build_features: build_features@,
                repo_version: repo_version@,
                version: version@,
            }),
    {
        Version { build_profile, build_features, repo_version, version }
    }

    /// The written form of the version.
    pub fn to_ipld(&self) -> (r: Ipld)
        ensures
            r@ == version_ipld(self@),
    {
        let mut map: SortedMap<Ipld> = SortedMap::new();
        let a = Ipld::String(self.build_profile.clone());
        let b = Ipld::String(self.build_features.clone());
        let c = Ipld::String(self.repo_version.clone());
        let d = Ipld::String(self.version.clone());
        proof {
            lemma_dict_view_empty();
            let m0 = map@;
            let m1 = m0.insert(build_profile_key(), a);
            let m2 = m1.insert(build_features_key(), b);
            let m3 = m2.insert(repo_version_key(), c);
            lemma_dict_view_insert(m0, build_profile_key(), a);
            lemma_dict_view_insert(m1, build_features_key(), b);
            lemma_dict_view_insert(m2, repo_version_key(), c);
            lemma_dict_view_insert(m3, version_key(), d);
        }
        map.insert("build_profile".to_string(), a);
        map.insert("build_features".to_string(), b);
        map.insert("repo_version".to_string(), c);
        map.insert("version".to_string(), d);
        proof {
            lemma_dict_view(map);
        }
        Ipld::Dict(map)
    }

    /// Reads a version from its written form.
    pub fn try_from_ipld(value: &Ipld) -> (r: Result<Version, VersionError>)
        ensures
            version_result_view(r) == ipld_version(value@),
    {
        let map = match value {
            Ipld::Dict(m) => m,
            _ => {
                return Err(VersionError::NotAMap);
            },
        };
        proof {
            lemma_dict_view(*map);
        }
        let build_profile = match text_at(map, "build_profile") {
            Some(s) => s,
            None => {
                return Err(VersionError::MissingField("build_profile".to_string()));
            },
        };
        let build_features = match text_at(map, "build_features") {
            Some(s) => s,
            None => {
                return Err(VersionError::MissingField("build_features".to_string()));
            },
        };
        let repo_version = match text_at(map, "repo_version") {
            Some(s) => s,
            None => {
                return Err(VersionError::MissingField("repo_version".to_string()));
            },
        };
        let version = match text_at(map, "version") {
            Some(s) => s,
            None => {
                return Err(VersionError::MissingField("version".to_string()));
            },
        };
        Ok(Version { build_profile, build_features, repo_version, version })
    }
}

impl Clone for Version {
    fn clone(&self) -> (r: Self)
        ensures
            r@ == self@,
    {
        Version {
            build_profile: self.build_profile.clone(),
            build_features: self.build_features.clone(),
            repo_version: self.repo_version.clone(),
            version: self.version.clone(),
        }
    }
}

impl Default for Version {
    /// The version whose four parts are empty.
    fn default() -> (r: Self)
        ensures
            r@ == empty_version(),
    {
        Version {
            build_profile: String::new(),
            build_features: String::new(),
            repo_version: String::new(),
            version: String::new(),
        }
    }
}

/// The root block of a revision.
#[derive(Debug, PartialEq, Eq)]
pub struct Manifest {
    version: Version,
    previous: Cid,
    data: Cid,
}

impl View for Manifest {
    type V = ManifestView;

    closed spec fn view(&self) -> ManifestView {
        ManifestView { version: self.version@, previous: self.previous@, data: self.data@ }
    }
}

impl Manifest {
    /// The manifest of a first revision by the build `version`: it names no
    /// manifest before it and no root node yet.
    pub fn new(version: Version) -> (r: Manifest)
        ensures
            r@ == (ManifestView { version: version@, previous: default_cid(), data: default_cid() }),
    {
        Manifest { version, previous: Cid::default(), data: Cid::default() }
    }

    /// The build that wrote the manifest.
    pub fn version(&self) -> (r: &Version)
        ensures
            r@ == self@.version,
    {
        &self.version
    }

    /// The identifier of the manifest before this one.
    pub fn previous(&self) -> (r: &Cid)
        ensures
            r@ == self@.previous,
    {
        &self.previous
    }

    /// The identifier of the root node.
    pub fn data(&self) -> (r: &Cid)
        ensures
            r@ == self@.data,
    {
        &self.data
    }

    /// The identifier of the root node.
    pub fn root(&self) -> (r: &Cid)
        ensures
            r@ == self@.data,
    {
        &self.data
    }

    /// Sets the identifier of the root node.
    pub fn set_data(&mut self, cid: Cid)
        ensures
            final(self)@ == (ManifestView { data: cid@, ..old(self)@ }),
    {
        self.data = cid;
    }

    /// Sets the identifier of the root node.
    pub fn set_root(&mut self, cid: Cid)
        ensures
            final(self)@ == (ManifestView { data: cid@, ..old(self)@ }),
    {
        self.data = cid;
    }

    /// Sets the identifier of the manifest before this one.
    pub fn set_previous(&mut self, cid: Cid)
        ensures
            final(self)@ == (ManifestView { previous: cid@, ..old(self)@ }),
    {
        self.previous = cid;
    }

    /// The written form of the manifest.
    pub fn to_ipld(&self) -> (r: Ipld)
        ensures
            r@ == manifest_ipld(self@),
    {
        let mut map: SortedMap<Ipld> = SortedMap::new();
        let a = self.version.to_ipld();
        let b = if self.previous.is_default() {
            Ipld::Null
        } else {
            Ipld::Link(self.previous.clone())
        };
        let c = Ipld::Link(self.data.clone());
        proof {
            lemma_dict_view_empty();
            let m0 = map@;
            let m1 = m0.insert(version_key(), a);
            let m2 = m1.insert(previous_key(), b);
            lemma_dict_view_insert(m0, version_key(), a);
            lemma_dict_view_insert(m1, previous_key(), b);
            lemma_dict_view_insert(m2, data_key(), c);
        }
        map.insert("version".to_string(), a);
        map.insert("previous".to_string(), b);
        map.insert("data".to_string(), c);
        proof {
            lemma_dict_view(map);
        }
        Ipld::Dict(map)
    }

    /// The identifier of the manifest's block.
    pub fn cid(&self) -> (r: Option<Cid>)
        ensures
            r is Some == manifest_cid(self@) is Some,
            r is Some ==> r->0@ == manifest_cid(self@)->0 && structured_cid(r->0@),
    {
        match ipld_to_cid(&self.to_ipld()) {
            Ok(cid) => Some(cid),
            Err(_) => None,
        }
    }

    /// Reads a manifest from its written form.
    pub fn try_from_ipld(value: &Ipld) -> (r: Result<Manifest, ManifestError>)
        ensures
            manifest_result_view(r) == ipld_manifest(value@),
    {
        let map = match value {
            Ipld::Dict(m) => m,
            _ => {
                return Err(ManifestError::MissingField("map".to_string()));
            },
        };
        proof {
            lemma_dict_view(*map);
        }
        let version = match map.get("version") {
            Some(written) => match Version::try_from_ipld(written) {
                Ok(v) => v,
                Err(e) => {
                    return Err(ManifestError::VersionError(e));
                },
            },
            None => {
                return Err(ManifestError::MissingField("version".to_string()));
            },
        };
        let previous = match map.get("previous") {
            Some(Ipld::Link(cid)) => cid.clone(),
            Some(Ipld::Null) => Cid::default(),
            _ => {
                return Err(ManifestError::MissingField("previous link".to_string()));
            },
        };
        let data = match map.get("data") {
            Some(Ipld::Link(cid)) => cid.clone(),
            _ => {
                return Err(ManifestError::MissingField("data link".to_string()));
            },
        };
        Ok(Manifest { version, previous, data })
    }
}

impl Clone for Manifest {
    fn clone(&self) -> (r: Self)
        ensures
            r@ == self@,
    {
        Manifest { version: self.version.clone(), previous: self.previous.clone(), data: self.data.clone() }
    }
}

impl Default for Manifest {
    /// The manifest of a first revision by a build without name.
    fn default() -> (r: Self)
        ensures
            r@ == (ManifestView { version: empty_version(), previous: default_cid(), data: default_cid() }),
    {
        Manifest { version: Version::default(), previous: Cid::default(), data: Cid::default() }
    }
}

} // verus!
