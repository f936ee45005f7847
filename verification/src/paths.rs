//! Where the data files lie.
use std::path::PathBuf;
use vstd::prelude::*;

verus! {

/// Declares `std::path::PathBuf`, of which nothing is known but its components.
#[verifier::external_type_specification]
#[verifier::external_body]
pub struct ExPathBuf(PathBuf);

/// The components of a path, from the first to the last, as
/// `std::path::Path::components` lists them.
pub uninterp spec fn path_components(path: PathBuf) -> Seq<Seq<char>>;

/// What `std::path::Path::join` makes of a path and a name.
pub uninterp spec fn path_joined(directory: PathBuf, name: Seq<char>) -> PathBuf;

/// Whether a path with given components is relative or starts at the root "/":
/// its first component is no drive, share or other prefix.
pub open spec fn unprefixed(components: Seq<Seq<char>>) -> bool {
    components.len() == 0 || components[0] == "/"@ || forall|i: int|
        0 <= i < components[0].len() ==> #[trigger] components[0][i] != '/' && components[0][i]
            != '\\' && components[0][i] != ':'
}

/// Whether a text is a plain name: no part of it separates components or ends a
/// prefix, and it is not one of the names "." and "..".
pub open spec fn plain_name(name: Seq<char>) -> bool {
    &&& name.len() > 2
    &&& forall|i: int|
        0 <= i < name.len() ==> #[trigger] name[i] != '/' && name[i] != '\\' && name[i] != ':'
}

/// The names of the data files and of their directory are plain.
proof fn lemma_names_are_plain()
    ensures
        plain_name("data"@),
        plain_name("references.bin"@),
        plain_name("references.json.gz"@),
        plain_name("mcc_risk.json"@),
        plain_name("normalization.json"@),
{
    assert(plain_name("data"@)) by {
        reveal_strlit("data");
    }
    assert(plain_name("references.bin"@)) by {
        reveal_strlit("references.bin");
    }
    assert(plain_name("references.json.gz"@)) by {
        reveal_strlit("references.json.gz");
    }
    assert(plain_name("mcc_risk.json"@)) by {
        reveal_strlit("mcc_risk.json");
    }
    assert(plain_name("normalization.json"@)) by {
        reveal_strlit("normalization.json");
    }
}

/// Calls `std::path::Path::join`, whose result depends on the path and the name
/// alone. Adjoining a plain name to a path without a prefix adds one component
/// at its end; what becomes of the components of other paths is left unsaid.
#[verifier::external_body]
fn join(directory: &PathBuf, name: &str) -> (path: PathBuf)
    requires
        plain_name(name@),
    ensures
        path == path_joined(*directory, name@),
        unprefixed(path_components(*directory)) ==> path_components(path) == path_components(
            *directory,
        ).push(name@),
{
    directory.join(name)
}

/// Calls `std::path::PathBuf::from`: a plain name is a path of one component.
#[verifier::external_body]
fn path_of(name: &str) -> (path: PathBuf)
    requires
        plain_name(name@),
    ensures
        path_components(path) == seq![name@],
{
    PathBuf::from(name)
}

/// Specifies `<std::path::PathBuf as Clone>::clone`: the clone is the same path.
pub assume_specification[ <PathBuf as Clone>::clone ](path: &PathBuf) -> (copy: PathBuf)
    ensures
        copy == *path,
;

/// The data files.
#[derive(Debug)]
pub struct ResourcePaths {
    pub references_bin: PathBuf,
    pub references_json_gz: PathBuf,
    pub mcc_risk: PathBuf,
    pub normalization: PathBuf,
}

impl Clone for ResourcePaths {
    fn clone(&self) -> (copy: Self)
        ensures
            copy == *self,
    {
        Self {
            references_bin: self.references_bin.clone(),
            references_json_gz: self.references_json_gz.clone(),
            mcc_risk: self.mcc_risk.clone(),
            normalization: self.normalization.clone(),
        }
    }
}

/// Which of the two reference files is to be loaded.
#[derive(Clone, Copy, PartialEq, Eq, Debug, Structural)]
pub enum ReferenceSource {
    Binary,
    CompressedJson,
}

impl ResourcePaths {
    /// Whether the data files lie in a directory with given components.
    pub open spec fn lie_in(&self, directory: Seq<Seq<char>>) -> bool {
        &&& path_components(self.references_bin) == directory.push("references.bin"@)
        &&& path_components(self.references_json_gz) == directory.push("references.json.gz"@)
        &&& path_components(self.mcc_risk) == directory.push("mcc_risk.json"@)
        &&& path_components(self.normalization) == directory.push("normalization.json"@)
    }

    /// Whether the data files are what their names make with a directory.
    pub open spec fn joined_to(&self, directory: PathBuf) -> bool {
        &&& self.references_bin == path_joined(directory, "references.bin"@)
        &&& self.references_json_gz == path_joined(directory, "references.json.gz"@)
        &&& self.mcc_risk == path_joined(directory, "mcc_risk.json"@)
        &&& self.normalization == path_joined(directory, "normalization.json"@)
    }

    /// The data files in the directory that the environment gives, or else in
    /// the directory "data".
    pub fn from_env(data_dir: Option<PathBuf>) -> (paths: Self)
        ensures
            match data_dir {
                Some(directory) => paths.joined_to(directory) && (unprefixed(
                    path_components(directory),
                ) ==> paths.lie_in(path_components(directory))),
                None => paths.lie_in(seq!["data"@]),
            },
    {
        match data_dir {
            Some(directory) => Self::from_data_dir(directory),
            None => {
                proof {
                    lemma_names_are_plain();
                }
                Self::from_data_dir(path_of("data"))
            },
        }
    }

    /// The data files in a directory.
    pub fn from_data_dir(data_dir: PathBuf) -> (paths: Self)
        ensures
            paths.joined_to(data_dir),
            unprefixed(path_components(data_dir)) ==> paths.lie_in(path_components(data_dir)),
    {
        proof {
            lemma_names_are_plain();
        }
        Self {
            references_bin: join(&data_dir, "references.bin"),
            references_json_gz: join(&data_dir, "references.json.gz"),
            mcc_risk: join(&data_dir, "mcc_risk.json"),
            normalization: join(&data_dir, "normalization.json"),
        }
    }

    /// Which reference file to load, given whether the binary one exists: that
    /// one if it does.
    pub fn reference_source(&self, binary_exists: bool) -> (source: ReferenceSource)
        ensures
            source == if binary_exists {
                ReferenceSource::Binary
            } else {
                ReferenceSource::CompressedJson
            },
    {
        if binary_exists {
            ReferenceSource::Binary
        } else {
            ReferenceSource::CompressedJson
        }
    }
}

/// Where the data files lie: each is the directory and its own name.
pub proof fn lemma_each_file_has_its_name(paths: ResourcePaths, directory: Seq<Seq<char>>)
    requires
        paths.lie_in(directory),
    ensures
        path_components(paths.references_bin) == directory.push("references.bin"@),
        path_components(paths.references_json_gz) == directory.push("references.json.gz"@),
        path_components(paths.mcc_risk) == directory.push("mcc_risk.json"@),
        path_components(paths.normalization) == directory.push("normalization.json"@),
{
}

/// What the data files are made of: a directory, and for each its own name.
pub proof fn lemma_each_file_is_joined(paths: ResourcePaths, directory: PathBuf)
    requires
        paths.joined_to(directory),
    ensures
        paths.references_bin == path_joined(directory, "references.bin"@),
        paths.references_json_gz == path_joined(directory, "references.json.gz"@),
        paths.mcc_risk == path_joined(directory, "mcc_risk.json"@),
        paths.normalization == path_joined(directory, "normalization.json"@),
{
}

} // verus!
