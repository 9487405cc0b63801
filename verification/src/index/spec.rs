//! The declaration of a secondary index.

use crate::error::Error;
use vstd::prelude::*;

verus! {

/// What kind of index is declared.
#[derive(Debug, Clone, Copy, PartialEq, Eq, Structural)]
#[non_exhaustive]
pub enum IndexKind {
    /// One field, not unique. One key per document, and the document id is
    /// appended to keep keys apart.
    Standard,
    /// One field, unique. The key is the field alone.
    Unique,
    /// A field that is a sequence. One key per element, each with the document
    /// id appended.
    Each,
    /// Two fields or more, not unique. The key is a tag and the fields one
    /// after the other.
    Composite,
}

/// The declaration of an index.
#[derive(Debug, Clone, PartialEq, Eq)]
#[non_exhaustive]
pub struct IndexSpec {
    /// Name of the index.
    pub name: String,
    /// What kind of index it is.
    pub kind: IndexKind,
    /// The fields it covers: one, or at least two for a composite index.
    pub key_paths: Vec<String>,
}

/// Names as text.
pub open spec fn texts(v: Seq<String>) -> Seq<Seq<char>> {
    v.map_values(|s: String| s@)
}

/// What is wrong with a declaration, if anything is.
pub open spec fn spec_error(
    name: Seq<char>,
    kind: IndexKind,
    paths: Seq<Seq<char>>,
) -> Option<Error> {
    if name.len() == 0 {
        Some(Error::InvalidArgument("index name must be non-empty"))
    } else if exists|i: int| 0 <= i < paths.len() && (#[trigger] paths[i]).len() == 0 {
        Some(Error::InvalidArgument("index key path must be non-empty"))
    } else if kind != IndexKind::Composite && paths.len() != 1 {
        Some(
            Error::InvalidArgument("Standard/Unique/Each indexes require exactly one key path"),
        )
    } else if kind == IndexKind::Composite && paths.len() < 2 {
        Some(Error::InvalidArgument("Composite indexes require at least two key paths"))
    } else {
        None
    }
}

/// `r` is the declaration of the given parts, or the error that they earn.
pub open spec fn declared(
    r: Result<IndexSpec, Error>,
    name: Seq<char>,
    kind: IndexKind,
    paths: Seq<Seq<char>>,
) -> bool {
    match spec_error(name, kind, paths) {
        Some(e) => r == Err::<IndexSpec, Error>(e),
        None => r matches Ok(s) && s.name@ == name && s.kind == kind && texts(s.key_paths@)
            == paths,
    }
}

impl IndexSpec {
    /// Declare an index on one field.
    pub fn standard(name: &str, path: &str) -> (r: Result<Self, Error>)
        ensures
            declared(r, name@, IndexKind::Standard, seq![path@]),
    {
        Self::scalar(IndexKind::Standard, name, path)
    }

    /// Declare a unique index on one field.
    pub fn unique(name: &str, path: &str) -> (r: Result<Self, Error>)
        ensures
            declared(r, name@, IndexKind::Unique, seq![path@]),
    {
        Self::scalar(IndexKind::Unique, name, path)
    }

    /// Declare an index on the elements of a sequence.
    pub fn each(name: &str, path: &str) -> (r: Result<Self, Error>)
        ensures
            declared(r, name@, IndexKind::Each, seq![path@]),
    {
        Self::scalar(IndexKind::Each, name, path)
    }

    /// Declare an index on several fields.
    pub fn composite(name: &str, paths: &[&str]) -> (r: Result<Self, Error>)
        ensures
            declared(r, name@, IndexKind::Composite, paths@.map_values(|p: &str| p@)),
    {
        let mut owned: Vec<String> = Vec::new();
        let mut i: usize = 0;
        while i < paths.len()
            invariant
                i <= paths@.len(),
                owned@.len() == i,
                forall|j: int| 0 <= j < i ==> (#[trigger] owned@[j])@ == paths@[j]@,
            decreases paths.len() - i,
        {
            owned.push(paths[i].to_owned());
            i = i + 1;
        }
        proof {
            assert(texts(owned@) =~= paths@.map_values(|p: &str| p@));
        }
        Self::from_parts(name, IndexKind::Composite, owned)
    }

    /// Declare an index of any kind.
    pub fn from_parts(name: &str, kind: IndexKind, key_paths: Vec<String>) -> (r: Result<
        Self,
        Error,
    >)
        ensures
            declared(r, name@, kind, texts(key_paths@)),
    {
        let spec = IndexSpec { name: name.to_owned(), kind, key_paths };
        match spec.validate() {
            Ok(_) => Ok(spec),
            Err(e) => Err(e),
        }
    }

    /// Check a declaration: the name and every path say something, and there
    /// are as many paths as the kind asks for.
    pub fn validate(&self) -> (r: Result<(), Error>)
        ensures
            match spec_error(self.name@, self.kind, texts(self.key_paths@)) {
                Some(e) => r == Err::<(), Error>(e),
                None => r is Ok,
            },
    {
        let ghost paths = texts(self.key_paths@);
        if self.name.as_str().is_empty() {
            return Err(Error::InvalidArgument("index name must be non-empty"));
        }
        let mut i: usize = 0;
        while i < self.key_paths.len()
            invariant
                i <= self.key_paths@.len(),
                paths == texts(self.key_paths@),
                self.name@.len() > 0,
                forall|j: int| 0 <= j < i ==> (#[trigger] paths[j]).len() > 0,
            decreases self.key_paths.len() - i,
        {
            if self.key_paths[i].as_str().is_empty() {
                proof {
                    assert(paths[i as int].len() == 0);
                }
                return Err(Error::InvalidArgument("index key path must be non-empty"));
            }
            i = i + 1;
        }
        match self.kind {
            IndexKind::Standard | IndexKind::Unique | IndexKind::Each => {
                if self.key_paths.len() != 1 {
                    return Err(
                        Error::InvalidArgument(
                            "Standard/Unique/Each indexes require exactly one key path",
                        ),
                    );
                }
            },
            IndexKind::Composite => {
                if self.key_paths.len() < 2 {
                    return Err(
                        Error::InvalidArgument("Composite indexes require at least two key paths"),
                    );
                }
            },
        }
        Ok(())
    }

    fn scalar(kind: IndexKind, name: &str, path: &str) -> (r: Result<Self, Error>)
        ensures
            declared(r, name@, kind, seq![path@]),
    {
        let mut key_paths: Vec<String> = Vec::new();
        key_paths.push(path.to_owned());
        proof {
            assert(texts(key_paths@) =~= seq![path@]);
        }
        Self::from_parts(name, kind, key_paths)
    }
}

/// A declaration that was accepted stays acceptable: checking it again finds
/// nothing.
pub proof fn law_declared_is_valid(
    s: IndexSpec,
    name: Seq<char>,
    kind: IndexKind,
    paths: Seq<Seq<char>>,
)
    requires
        declared(Ok::<IndexSpec, Error>(s), name, kind, paths),
    ensures
        spec_error(s.name@, s.kind, texts(s.key_paths@)) is None,
{
}

/// A declaration is accepted exactly where its name and all of its paths say
/// something, and there is one path, or at least two for a composite index. An
/// empty name is reported first, then an empty path, then the number of paths.
pub proof fn law_accepted_declarations(name: Seq<char>, kind: IndexKind, paths: Seq<Seq<char>>)
    ensures
        ({
            let named = forall|i: int| 0 <= i < paths.len() ==> (#[trigger] paths[i]).len() > 0;
            let counted = match kind {
                IndexKind::Composite => paths.len() >= 2,
                IndexKind::Standard | IndexKind::Unique | IndexKind::Each => paths.len() == 1,
            };
            &&& spec_error(name, kind, paths) is None <==> name != Seq::<char>::empty() && named
                && counted
            &&& name == Seq::<char>::empty() ==> spec_error(name, kind, paths) == Some(
                Error::InvalidArgument("index name must be non-empty"),
            )
            &&& name != Seq::<char>::empty() && !named ==> spec_error(name, kind, paths) == Some(
                Error::InvalidArgument("index key path must be non-empty"),
            )
            &&& name != Seq::<char>::empty() && named && !counted && kind is Composite
                ==> spec_error(name, kind, paths) == Some(
                Error::InvalidArgument("Composite indexes require at least two key paths"),
            )
            &&& name != Seq::<char>::empty() && named && !counted && !(kind is Composite)
                ==> spec_error(name, kind, paths) == Some(
                Error::InvalidArgument(
                    "Standard/Unique/Each indexes require exactly one key path",
                ),
            )
        }),
{
    assert(name.len() == 0 <==> name =~= Seq::<char>::empty());
    assert forall|i: int| 0 <= i < paths.len() implies ((#[trigger] paths[i]).len() == 0
        <==> paths[i] == Seq::<char>::empty()) by {
        assert(paths[i].len() == 0 <==> paths[i] =~= Seq::<char>::empty());
    }
}

/// What is declared has the name, the kind and the paths that were given, the
/// paths in order.
pub proof fn law_declarations_keep_their_parts(
    s: IndexSpec,
    name: Seq<char>,
    kind: IndexKind,
    paths: Seq<Seq<char>>,
    i: int,
)
    requires
        declared(Ok::<IndexSpec, Error>(s), name, kind, paths),
        0 <= i < paths.len(),
    ensures
        s.name@ == name,
        s.kind == kind,
        s.key_paths@.len() == paths.len(),
        s.key_paths@[i]@ == paths[i],
{
    assert(texts(s.key_paths@)[i] == s.key_paths@[i]@);
}

} // verus!
