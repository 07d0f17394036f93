//! The queries put to the metadata command and to the tree command: what to
//! ask, and what to take for an answer.

use vstd::prelude::*;
use crate::author::texts;
use crate::err::BashManError;

verus! {

/// A query for the metadata of a manifest.
#[derive(Clone, Debug)]
pub struct CargoMetadata {
    /// The path of the manifest.
    pub path: String,
    /// The target to ask for, where only one is wanted.
    pub target: Option<String>,
    /// Whether to ask with all features rather than with none.
    pub features: bool,
}

/// The switch for the features.
pub open spec fn features_arg(features: bool) -> Seq<char> {
    if features {
        "--all-features"@
    } else {
        "--no-default-features"@
    }
}

/// The arguments of the metadata command.
pub open spec fn metadata_args(
    path: Seq<char>,
    target: Option<Seq<char>>,
    features: bool,
) -> Seq<Seq<char>> {
    let head = seq![
        "metadata"@,
        "--quiet"@,
        "--color"@,
        "never"@,
        "--format-version"@,
        "1"@,
        features_arg(features),
        "--manifest-path"@,
        path,
    ];
    match target {
        Some(t) => head + seq!["--filter-platform"@, t],
        None => head,
    }
}

/// The arguments of the tree command.
pub open spec fn tree_args(
    path: Seq<char>,
    target: Option<Seq<char>>,
    features: bool,
) -> Seq<Seq<char>> {
    seq![
        "tree"@,
        "--quiet"@,
        "--color"@,
        "never"@,
        "--edges"@,
        "normal,build"@,
        "--prefix"@,
        "none"@,
        features_arg(features),
        "--target"@,
        match target {
            Some(t) => t,
            None => "all"@,
        },
        "--manifest-path"@,
        path,
    ]
}

/// How an answer of the metadata command starts.
pub open spec fn answer_start() -> Seq<u8> {
    seq![
        0x7bu8,
        0x22u8,
        0x70u8,
        0x61u8,
        0x63u8,
        0x6bu8,
        0x61u8,
        0x67u8,
        0x65u8,
        0x73u8,
        0x22u8,
        0x3au8,
        0x5bu8,
    ]
}

/// Whether the bytes start like an answer of the metadata command: with
/// `{"packages":[`.
pub open spec fn is_answer(stdout: Seq<u8>) -> bool {
    stdout.len() >= answer_start().len() && stdout.take(answer_start().len() as int)
        == answer_start()
}

/// The text of an optional string.
pub open spec fn target_text(target: Option<String>) -> Option<Seq<char>> {
    match target {
        Some(t) => Some(t@),
        None => None,
    }
}

impl CargoMetadata {
    /// A query for the manifest at `path`, with no features.
    pub fn new(path: String, target: Option<String>) -> (r: Self)
        ensures
            r.path == path,
            r.target == target,
            !r.features,
    {
        CargoMetadata { path, target, features: false }
    }

    /// The same query with all features, or with none.
    pub fn with_features(self, features: bool) -> (r: Self)
        ensures
            r.path == self.path,
            r.target == self.target,
            r.features == features,
    {
        CargoMetadata { path: self.path, target: self.target, features }
    }

    /// The switch for the features.
    fn features_switch(&self) -> (r: String)
        ensures
            r@ == features_arg(self.features),
    {
        if self.features {
            "--all-features".to_owned()
        } else {
            "--no-default-features".to_owned()
        }
    }

    /// The arguments to run the metadata command with.
    pub fn args(&self) -> (out: Vec<String>)
        ensures
            texts(out@) == metadata_args(self.path@, target_text(self.target), self.features),
    {
        let mut out: Vec<String> = Vec::new();
        out.push("metadata".to_owned());
        out.push("--quiet".to_owned());
        out.push("--color".to_owned());
        out.push("never".to_owned());
        out.push("--format-version".to_owned());
        out.push("1".to_owned());
        out.push(self.features_switch());
        out.push("--manifest-path".to_owned());
        out.push(self.path.clone());
        match &self.target {
            Some(t) => {
                out.push("--filter-platform".to_owned());
                out.push(t.clone());
            },
            None => {},
        }
        assert(texts(out@) =~= metadata_args(
            self.path@,
            target_text(self.target),
            self.features,
        ));
        out
    }

    /// The arguments to run the tree command with.
    pub fn tree(&self) -> (out: Vec<String>)
        ensures
            texts(out@) == tree_args(self.path@, target_text(self.target), self.features),
    {
        let mut out: Vec<String> = Vec::new();
        out.push("tree".to_owned());
        out.push("--quiet".to_owned());
        out.push("--color".to_owned());
        out.push("never".to_owned());
        out.push("--edges".to_owned());
        out.push("normal,build".to_owned());
        out.push("--prefix".to_owned());
        out.push("none".to_owned());
        out.push(self.features_switch());
        out.push("--target".to_owned());
        match &self.target {
            Some(t) => {
                out.push(t.clone());
            },
            None => {
                out.push("all".to_owned());
            },
        }
        out.push("--manifest-path".to_owned());
        out.push(self.path.clone());
        assert(texts(out@) =~= tree_args(self.path@, target_text(self.target), self.features));
        out
    }

    /// What to make of a run of the metadata command: its output where the
    /// command succeeded and the output starts like an answer, else an
    /// error.
    pub fn exec(success: bool, stdout: Vec<u8>) -> (r: Result<Vec<u8>, BashManError>)
        ensures
            match r {
                Ok(bytes) => success && is_answer(stdout@) && bytes == stdout,
                Err(e) => !(success && is_answer(stdout@)) && e == BashManError::Cargo,
            },
    {
        if !success || stdout.len() < 13 {
            return Err(BashManError::Cargo);
        }
        let ok = stdout[0] == 0x7b && stdout[1] == 0x22 && stdout[2] == 0x70 && stdout[3] == 0x61
            && stdout[4] == 0x63 && stdout[5] == 0x6b && stdout[6] == 0x61 && stdout[7] == 0x67
            && stdout[8] == 0x65 && stdout[9] == 0x73 && stdout[10] == 0x22 && stdout[11] == 0x3a
            && stdout[12] == 0x5b;
        proof {
            let head = stdout@.take(13);
            if ok {
                assert(head =~= answer_start());
            } else {
                assert(head[0] == stdout@[0] && head[1] == stdout@[1] && head[2] == stdout@[2]
                    && head[3] == stdout@[3] && head[4] == stdout@[4] && head[5] == stdout@[5]
                    && head[6] == stdout@[6] && head[7] == stdout@[7] && head[8] == stdout@[8]
                    && head[9] == stdout@[9] && head[10] == stdout@[10] && head[11] == stdout@[11]
                    && head[12] == stdout@[12]);
            }
        }
        if ok {
            Ok(stdout)
        } else {
            Err(BashManError::Cargo)
        }
    }
}

} // verus!
