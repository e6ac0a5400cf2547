//! Canonical paths and the roots a turn is allowed to touch.
//!
//! Every filesystem access a tool makes goes through [`AccessScope`], and the
//! scope answers exactly one question: is this real path inside a root the user
//! authorized? Roots are canonical, and every request is canonicalized before
//! it is compared: comparing unresolved strings would let `a/../../b` or a
//! symlink name a path the prefix test would then approve.
//!
//! A scope is the primary root and explicitly configured additional roots.
//! There is no implicit root: not the home directory, not the parent of the
//! workspace.
//!
//! What a path is on disk is for the caller to find out. What is decided from
//! the answer is decided here, on [`Location`]s.

use vstd::prelude::*;
use vstd::string::*;
use vstd::utf8::*;

use crate::text;

verus! {

// ---------------------------------------------------------------------------
// paths
// ---------------------------------------------------------------------------

/// A path by its components: whether it starts at the filesystem's root, and the
/// names on the way down, as the bytes the system has for them.
#[derive(Debug, Clone, PartialEq, Eq)]
pub struct Location {
    pub absolute: bool,
    pub names: Vec<Vec<u8>>,
}

/// [`Location`] in mathematical terms.
pub struct Place {
    pub absolute: bool,
    pub names: Seq<Seq<u8>>,
}

/// The bytes of several names.
pub open spec fn named(names: Seq<Vec<u8>>) -> Seq<Seq<u8>> {
    names.map_values(|name: Vec<u8>| name@)
}

impl View for Location {
    type V = Place;

    open spec fn view(&self) -> Place {
        Place { absolute: self.absolute, names: named(self.names@) }
    }
}

/// The parts of a path's bytes between its slashes.
pub open spec fn slashed(bytes: Seq<u8>) -> Seq<Seq<u8>>
    decreases bytes.len(),
{
    if bytes.len() == 0 {
        seq![Seq::empty()]
    } else {
        let before = slashed(bytes.drop_last());
        if bytes.last() == 0x2f {
            before.push(Seq::empty())
        } else {
            before.drop_last().push(before.last().push(bytes.last()))
        }
    }
}

/// The name of the directory a path is in.
pub open spec fn dot() -> Seq<u8> {
    seq![0x2eu8]
}

/// The name of the directory above.
pub open spec fn dot_dot() -> Seq<u8> {
    seq![0x2eu8, 0x2eu8]
}

/// The parts that name something: none that is empty, and a dot only where it
/// opens the path.
pub open spec fn naming(parts: Seq<Seq<u8>>) -> Seq<Seq<u8>>
    decreases parts.len(),
{
    if parts.len() == 0 {
        Seq::empty()
    } else {
        let last = parts.last();
        if last.len() == 0 || (last == dot() && parts.len() > 1) {
            naming(parts.drop_last())
        } else {
            naming(parts.drop_last()).push(last)
        }
    }
}

/// What a path's bytes say.
pub open spec fn place_of(bytes: Seq<u8>) -> Place {
    Place {
        absolute: bytes.len() > 0 && bytes[0] == 0x2f,
        names: naming(slashed(bytes)),
    }
}

/// A copy of some bytes.
pub(crate) fn copied(bytes: &[u8]) -> (copy: Vec<u8>)
    ensures
        copy@ == bytes@,
{
    vstd::slice::slice_to_vec(bytes)
}

/// A copy of the first `count` names.
pub(crate) fn copied_names(names: &Vec<Vec<u8>>, count: usize) -> (copy: Vec<Vec<u8>>)
    requires
        count <= names@.len(),
    ensures
        named(copy@) == named(names@).take(count as int),
{
    let mut copy: Vec<Vec<u8>> = Vec::new();
    let mut at: usize = 0;
    assert(named(copy@) =~= named(names@).take(0));
    while at < count
        invariant
            at <= count <= names@.len(),
            named(copy@) == named(names@).take(at as int),
        decreases count - at,
    {
        let ghost before = named(copy@);
        copy.push(copied(names[at].as_slice()));
        proof {
            assert(named(copy@) =~= before.push(names@[at as int]@));
            assert(named(names@).take(at + 1) =~= named(names@).take(at as int).push(
                named(names@)[at as int],
            ));
        }
        at = at + 1;
    }
    copy
}

/// The parts of a path's bytes between its slashes.
fn split_slashes(bytes: &[u8]) -> (parts: Vec<Vec<u8>>)
    ensures
        named(parts@) == slashed(bytes@),
{
    let mut parts: Vec<Vec<u8>> = Vec::new();
    let mut part: Vec<u8> = Vec::new();
    let mut at: usize = 0;
    assert(named(parts@) =~= slashed(bytes@.take(0)).drop_last());
    assert(part@ =~= Seq::empty());
    while at < bytes.len()
        invariant
            at <= bytes@.len(),
            slashed(bytes@.take(at as int)).len() > 0,
            named(parts@) == slashed(bytes@.take(at as int)).drop_last(),
            part@ == slashed(bytes@.take(at as int)).last(),
        decreases bytes@.len() - at,
    {
        let ghost before = named(parts@);
        let ghost open = part@;
        let ghost next = bytes@.take(at + 1);
        assert(next.drop_last() =~= bytes@.take(at as int));
        assert(next.last() == bytes@[at as int]);
        if bytes[at] == 0x2f {
            parts.push(part);
            part = Vec::new();
            proof {
                assert(named(parts@) =~= before.push(open));
                assert(slashed(next).drop_last() =~= before.push(open));
                assert(part@ =~= Seq::empty());
            }
        } else {
            part.push(bytes[at]);
            proof {
                assert(slashed(next).drop_last() =~= before);
            }
        }
        at = at + 1;
    }
    let ghost before = named(parts@);
    let ghost open = part@;
    parts.push(part);
    proof {
        assert(bytes@.take(at as int) =~= bytes@);
        assert(named(parts@) =~= before.push(open));
        assert(slashed(bytes@) =~= before.push(open));
    }
    parts
}

/// Whether a name is a dot.
pub(crate) fn is_dot(name: &[u8]) -> (yes: bool)
    ensures
        yes == (name@ == dot()),
{
    let yes: bool = name.len() == 1 && name[0] == 0x2e;
    proof {
        if yes {
            assert(name@ =~= dot());
        }
    }
    yes
}

/// Whether a name is two dots.
pub(crate) fn is_dot_dot(name: &[u8]) -> (yes: bool)
    ensures
        yes == (name@ == dot_dot()),
{
    let yes: bool = name.len() == 2 && name[0] == 0x2e && name[1] == 0x2e;
    proof {
        if yes {
            assert(name@ =~= dot_dot());
        }
    }
    yes
}

impl Place {
    /// The path of a name below this one.
    pub open spec fn child(self, name: Seq<u8>) -> Place {
        Place { absolute: self.absolute, names: self.names.push(name) }
    }

    /// The path one name up; none above the filesystem's root or an empty path.
    pub open spec fn parent(self) -> Option<Place> {
        if self.names.len() == 0 {
            None
        } else {
            Some(Place { absolute: self.absolute, names: self.names.drop_last() })
        }
    }

    /// A path taken relative to this one. An absolute path stays as it is, and a
    /// dot that opens the other says nothing behind this one.
    pub open spec fn join(self, other: Place) -> Place {
        if other.absolute || (!self.absolute && self.names.len() == 0) {
            other
        } else if other.names.len() > 0 && other.names[0] == dot() {
            Place { absolute: self.absolute, names: self.names + other.names.skip(1) }
        } else {
            Place { absolute: self.absolute, names: self.names + other.names }
        }
    }

    /// Whether `candidate` is this path or lives beneath it: by components, so
    /// that `/work` does not contain `/work-evil`. An empty path contains every
    /// other.
    pub open spec fn contains(self, candidate: Place) -> bool {
        &&& self.absolute == candidate.absolute || (!self.absolute && self.names.len() == 0)
        &&& self.names.len() <= candidate.names.len()
        &&& candidate.names.take(self.names.len() as int) == self.names
    }

    /// The bytes of the path.
    pub open spec fn bytes(self) -> Seq<u8> {
        if self.absolute {
            seq![0x2fu8] + slash_joined(self.names)
        } else {
            slash_joined(self.names)
        }
    }
}

/// Names with a slash between each two.
pub open spec fn slash_joined(names: Seq<Seq<u8>>) -> Seq<u8>
    decreases names.len(),
{
    if names.len() == 0 {
        Seq::empty()
    } else if names.len() == 1 {
        names[0]
    } else {
        slash_joined(names.drop_last()).push(0x2f) + names.last()
    }
}

/// Names with the dots resolved textually: a dot says nothing, and two dots take
/// back the name before them, where there is one.
pub open spec fn resolved(names: Seq<Seq<u8>>) -> Seq<Seq<u8>>
    decreases names.len(),
{
    if names.len() == 0 {
        Seq::empty()
    } else {
        let before = resolved(names.drop_last());
        if names.last() == dot() {
            before
        } else if names.last() == dot_dot() {
            if before.len() == 0 {
                before
            } else {
                before.drop_last()
            }
        } else {
            before.push(names.last())
        }
    }
}

/// The text of bytes that need not be UTF-8, as `String::from_utf8_lossy` reads
/// them.
pub uninterp spec fn lossy(bytes: Seq<u8>) -> Seq<char>;

/// `String::from_utf8_lossy`: taken on trust to be a function of the bytes, and
/// to read UTF-8 as the text it encodes.
#[verifier::external_body]
fn lossy_text(bytes: &[u8]) -> (text: String)
    ensures
        text@ == lossy(bytes@),
        valid_utf8(bytes@) ==> text@ == decode_utf8(bytes@),
{
    String::from_utf8_lossy(bytes).into_owned()
}

/// Whether names are the same up to `count`.
fn same_names(a: &Vec<Vec<u8>>, b: &Vec<Vec<u8>>, count: usize) -> (yes: bool)
    requires
        count <= a@.len(),
        count <= b@.len(),
    ensures
        yes == (named(a@).take(count as int) == named(b@).take(count as int)),
{
    let ghost left = named(a@);
    let ghost right = named(b@);
    let mut at: usize = 0;
    assert(left.take(0) =~= right.take(0));
    while at < count
        invariant
            at <= count <= a@.len(),
            count <= b@.len(),
            left == named(a@),
            right == named(b@),
            left.take(at as int) == right.take(at as int),
        decreases count - at,
    {
        if !text::same_bytes(a[at].as_slice(), b[at].as_slice()) {
            proof {
                assert(left.take(count as int)[at as int] == a@[at as int]@);
                assert(right.take(count as int)[at as int] == b@[at as int]@);
            }
            return false;
        }
        proof {
            assert(left.take(at + 1) =~= left.take(at as int).push(left[at as int]));
            assert(right.take(at + 1) =~= right.take(at as int).push(right[at as int]));
        }
        at = at + 1;
    }
    true
}

impl Location {
    /// The path some bytes spell.
    pub fn parse(bytes: &[u8]) -> (path: Self)
        ensures
            path@ == place_of(bytes@),
    {
        let absolute: bool = bytes.len() > 0 && bytes[0] == 0x2f;
        let parts: Vec<Vec<u8>> = split_slashes(bytes);
        let ghost all = named(parts@);
        let mut names: Vec<Vec<u8>> = Vec::new();
        let mut at: usize = 0;
        assert(named(names@) =~= naming(all.take(0)));
        while at < parts.len()
            invariant
                all == named(parts@),
                at <= parts@.len(),
                named(names@) == naming(all.take(at as int)),
            decreases parts@.len() - at,
        {
            let ghost before = named(names@);
            let part: &[u8] = parts[at].as_slice();
            proof {
                assert(all.take(at + 1).drop_last() =~= all.take(at as int));
                assert(all.take(at + 1).last() == part@);
            }
            if !(part.len() == 0 || (at > 0 && is_dot(part))) {
                names.push(copied(part));
                assert(named(names@) =~= before.push(part@));
            }
            at = at + 1;
        }
        assert(all.take(at as int) =~= all);
        Location { absolute, names }
    }

    /// A path that names nothing.
    pub fn empty() -> (path: Self)
        ensures
            path@ == (Place { absolute: false, names: Seq::empty() }),
    {
        let path = Location { absolute: false, names: Vec::new() };
        assert(named(path.names@) =~= Seq::empty());
        path
    }

    /// Whether the path names nothing.
    pub fn is_empty(&self) -> (yes: bool)
        ensures
            yes == (!self@.absolute && self@.names.len() == 0),
    {
        !self.absolute && self.names.len() == 0
    }

    /// The same path.
    pub fn copy(&self) -> (path: Self)
        ensures
            path@ == self@,
    {
        let names: Vec<Vec<u8>> = copied_names(&self.names, self.names.len());
        assert(named(self.names@).take(self.names@.len() as int) =~= named(self.names@));
        Location { absolute: self.absolute, names }
    }

    /// Whether two paths are the same, by their components.
    pub fn same(&self, other: &Location) -> (yes: bool)
        ensures
            yes == (self@ == other@),
    {
        assert(self@.names.len() == self.names@.len());
        assert(other@.names.len() == other.names@.len());
        if self.absolute != other.absolute || self.names.len() != other.names.len() {
            return false;
        }
        let count: usize = self.names.len();
        proof {
            assert(named(self.names@).take(count as int) =~= named(self.names@));
            assert(named(other.names@).take(count as int) =~= named(other.names@));
        }
        same_names(&self.names, &other.names, count)
    }

    /// The path of a name below this one.
    pub fn child(&self, name: &[u8]) -> (path: Self)
        ensures
            path@ == self@.child(name@),
    {
        let mut path: Location = self.copy();
        let ghost before = named(path.names@);
        path.names.push(copied(name));
        assert(named(path.names@) =~= before.push(name@));
        path
    }

    /// The path one name up, if there is one.
    pub fn parent(&self) -> (path: Option<Self>)
        ensures
            path is Some == self@.parent() is Some,
            path matches Some(p) ==> Some(p@) == self@.parent(),
    {
        if self.names.len() == 0 {
            return None;
        }
        let names: Vec<Vec<u8>> = copied_names(&self.names, self.names.len() - 1);
        assert(named(self.names@).take(self.names@.len() - 1) =~= named(self.names@).drop_last());
        Some(Location { absolute: self.absolute, names })
    }

    /// A path taken relative to this one.
    pub fn join(&self, other: &Location) -> (path: Self)
        ensures
            path@ == self@.join(other@),
    {
        if other.absolute || self.is_empty() {
            return other.copy();
        }
        let ghost mine = named(self.names@);
        let ghost theirs = named(other.names@);
        let from: usize = if other.names.len() > 0 && is_dot(other.names[0].as_slice()) {
            1
        } else {
            0
        };
        let mut path: Location = self.copy();
        let mut at: usize = from;
        assert(mine + theirs.subrange(from as int, from as int) =~= mine);
        while at < other.names.len()
            invariant
                theirs == named(other.names@),
                mine == named(self.names@),
                path.absolute == self.absolute,
                from <= at <= other.names@.len(),
                named(path.names@) == mine + theirs.subrange(from as int, at as int),
            decreases other.names@.len() - at,
        {
            let ghost before = named(path.names@);
            let ghost name = other.names@[at as int]@;
            path.names.push(copied(other.names[at].as_slice()));
            proof {
                assert(named(path.names@) =~= before.push(name));
                assert(theirs.subrange(from as int, at + 1) =~= theirs.subrange(
                    from as int,
                    at as int,
                ).push(theirs[at as int]));
                assert(before.push(name) =~= mine + theirs.subrange(from as int, at + 1));
            }
            at = at + 1;
        }
        proof {
            assert(theirs.subrange(from as int, at as int) =~= theirs.skip(from as int));
            assert(theirs.skip(0) =~= theirs);
        }
        path
    }

    /// The bytes of the path.
    pub fn bytes(&self) -> (bytes: Vec<u8>)
        ensures
            bytes@ == self@.bytes(),
    {
        let ghost names = named(self.names@);
        let mut bytes: Vec<u8> = Vec::new();
        let mut at: usize = 0;
        assert(names.take(0) =~= Seq::empty());
        assert(bytes@ =~= slash_joined(names.take(0)));
        while at < self.names.len()
            invariant
                names == named(self.names@),
                at <= self.names@.len(),
                bytes@ == slash_joined(names.take(at as int)),
            decreases self.names@.len() - at,
        {
            let ghost before = bytes@;
            if at > 0 {
                bytes.push(0x2f);
            }
            bytes.extend_from_slice(self.names[at].as_slice());
            proof {
                let next = names.take(at + 1);
                assert(next.drop_last() =~= names.take(at as int));
                assert(next.last() == self.names@[at as int]@);
                if at == 0 {
                    assert(before =~= Seq::empty());
                    assert(bytes@ =~= next[0]);
                } else {
                    assert(bytes@ =~= before.push(0x2f) + next.last());
                }
            }
            at = at + 1;
        }
        assert(names.take(at as int) =~= names);
        if self.absolute {
            let ghost joined = bytes@;
            bytes.insert(0, 0x2f);
            assert(bytes@ =~= seq![0x2fu8] + joined);
        }
        bytes
    }

    /// How the path reads.
    pub fn display(&self) -> (text: String)
        ensures
            text@ == lossy(self@.bytes()),
            valid_utf8(self@.bytes()) ==> text@ == decode_utf8(self@.bytes()),
    {
        let bytes: Vec<u8> = self.bytes();
        lossy_text(bytes.as_slice())
    }
}

/// Whether `candidate` is `root` or lives beneath it, component-wise.
pub fn path_inside(root: &Location, candidate: &Location) -> (yes: bool)
    ensures
        yes == root@.contains(candidate@),
{
    let count: usize = root.names.len();
    if !(root.absolute == candidate.absolute || root.is_empty()) {
        return false;
    }
    if count > candidate.names.len() {
        return false;
    }
    assert(named(root.names@).take(count as int) =~= named(root.names@));
    same_names(&candidate.names, &root.names, count)
}

// ---------------------------------------------------------------------------
// what is never walked
// ---------------------------------------------------------------------------

/// Directory names that are never listed, walked, or searched.
pub const IGNORED_DIRECTORY_NAMES: [&'static str; 8] = [
    ".git",
    ".zig-cache",
    "zig-out",
    "node_modules",
    ".next",
    "dist",
    "build",
    "coverage",
];

/// Whether `name` is one of the always-ignored directory names.
pub open spec fn ignored(name: Seq<char>) -> bool {
    ||| name == ".git"@
    ||| name == ".zig-cache"@
    ||| name == "zig-out"@
    ||| name == "node_modules"@
    ||| name == ".next"@
    ||| name == "dist"@
    ||| name == "build"@
    ||| name == "coverage"@
}

/// Whether `name` is one of the always-ignored directory names.
pub fn is_ignored_directory(name: &str) -> (yes: bool)
    ensures
        yes == exists|i: int|
            0 <= i < IGNORED_DIRECTORY_NAMES@.len() && (#[trigger] IGNORED_DIRECTORY_NAMES@[i])@
                == name@,
        yes == ignored(name@),
{
    let mut at: usize = 0;
    while at < IGNORED_DIRECTORY_NAMES.len()
        invariant
            at <= 8,
            forall|i: int| 0 <= i < at ==> name@ != (#[trigger] IGNORED_DIRECTORY_NAMES[i])@,
        decreases 8 - at,
    {
        if text::same(name, IGNORED_DIRECTORY_NAMES[at]) {
            return true;
        }
        at = at + 1;
    }
    false
}

// ---------------------------------------------------------------------------
// refusals
// ---------------------------------------------------------------------------

/// Why a path could not be used.
///
/// Its message reaches the model as a tool result, and names the path the model
/// asked for, never the path it resolved to: reporting the target of a refused
/// symlink would hand back a fact about the filesystem outside the scope.
#[derive(Debug, Clone, PartialEq, Eq)]
pub enum PathError {
    /// The path was empty or only whitespace.
    Empty,
    /// Nothing exists at the requested path.
    NotFound { requested: String },
    /// The path exists but resolves outside every authorized root.
    OutsideScope { requested: String },
    /// The path could not be resolved for a reason other than absence.
    Unresolvable { requested: String, detail: String },
    /// A configured root is not a usable directory.
    RootUnavailable { path: String, detail: String },
}

/// [`PathError`] in mathematical terms.
pub enum Problem {
    Empty,
    NotFound { requested: Seq<char> },
    OutsideScope { requested: Seq<char> },
    Unresolvable { requested: Seq<char>, detail: Seq<char> },
    RootUnavailable { path: Seq<char>, detail: Seq<char> },
}

impl View for PathError {
    type V = Problem;

    open spec fn view(&self) -> Problem {
        match self {
            PathError::Empty => Problem::Empty,
            PathError::NotFound { requested } => Problem::NotFound { requested: requested@ },
            PathError::OutsideScope { requested } => Problem::OutsideScope {
                requested: requested@,
            },
            PathError::Unresolvable { requested, detail } => Problem::Unresolvable {
                requested: requested@,
                detail: detail@,
            },
            PathError::RootUnavailable { path, detail } => Problem::RootUnavailable {
                path: path@,
                detail: detail@,
            },
        }
    }
}

impl Problem {
    /// What the model is told.
    pub open spec fn message(self) -> Seq<char> {
        match self {
            Problem::Empty => "the path must not be empty"@,
            Problem::NotFound { requested } => "no such path: `"@ + requested + "`"@,
            Problem::OutsideScope { requested } => "`"@ + requested
                + "` resolves outside the authorized workspace roots"@,
            Problem::Unresolvable { requested, detail } => "cannot resolve `"@ + requested + "`: "@
                + detail,
            Problem::RootUnavailable { path, detail } => "`"@ + path
                + "` is not a usable directory: "@ + detail,
        }
    }
}

impl PathError {
    /// What the model is told.
    pub fn message(&self) -> (message: String)
        ensures
            message@ == self@.message(),
    {
        match self {
            PathError::Empty => "the path must not be empty".to_owned(),
            PathError::NotFound { requested } => {
                let mut out: String = "no such path: `".to_owned();
                out.append(requested.as_str());
                out.append("`");
                out
            },
            PathError::OutsideScope { requested } => {
                let mut out: String = "`".to_owned();
                out.append(requested.as_str());
                out.append("` resolves outside the authorized workspace roots");
                out
            },
            PathError::Unresolvable { requested, detail } => {
                let mut out: String = "cannot resolve `".to_owned();
                out.append(requested.as_str());
                out.append("`: ");
                out.append(detail.as_str());
                out
            },
            PathError::RootUnavailable { path, detail } => {
                let mut out: String = "`".to_owned();
                out.append(path.as_str());
                out.append("` is not a usable directory: ");
                out.append(detail.as_str());
                out
            },
        }
    }
}

// ---------------------------------------------------------------------------
// the scope
// ---------------------------------------------------------------------------

/// What the filesystem says of a path that is to be a root.
#[derive(Debug, Clone, PartialEq, Eq)]
pub enum Directory {
    /// It is a directory, and this is its canonical path.
    Real(Location),
    /// It exists and is something else.
    Other,
    /// It cannot be resolved or examined, for this reason.
    Failed(String),
}

/// What the filesystem says of a path that a tool asked for.
#[derive(Debug, Clone, PartialEq, Eq)]
pub enum Resolution {
    /// It exists, and this is its canonical path.
    Real(Location),
    /// Nothing is there.
    Missing,
    /// It cannot be resolved, for this reason.
    Failed(String),
}

/// The canonical path of a root that is spelled `path`, or why it is not one.
pub open spec fn root_of(path: Seq<char>, found: Directory) -> Result<Place, Problem> {
    match found {
        Directory::Real(canonical) => Ok(canonical@),
        Directory::Other => Err(
            Problem::RootUnavailable { path, detail: "not a directory"@ },
        ),
        Directory::Failed(detail) => Err(Problem::RootUnavailable { path, detail: detail@ }),
    }
}

/// The canonical path of a root that is spelled `path`, or why it is not one.
pub fn canonical_directory(path: &str, found: Directory) -> (root: Result<Location, PathError>)
    ensures
        match root_of(path@, found) {
            Ok(canonical) => root matches Ok(location) && location@ == canonical,
            Err(problem) => root matches Err(error) && error@ == problem,
        },
{
    match found {
        Directory::Real(canonical) => Ok(canonical),
        Directory::Other => Err(
            PathError::RootUnavailable {
                path: path.to_owned(),
                detail: "not a directory".to_owned(),
            },
        ),
        Directory::Failed(detail) => Err(
            PathError::RootUnavailable { path: path.to_owned(), detail },
        ),
    }
}

/// A real path proven to sit inside a named root. Only
/// [`AccessScope::resolve_existing`] makes one, so a value of this type is
/// itself the proof.
#[derive(Debug, PartialEq, Eq)]
pub struct ResolvedPath {
    absolute: Location,
    root: Location,
}

impl ResolvedPath {
    #[verifier::type_invariant]
    spec fn proven(self) -> bool {
        self.root@.contains(self.absolute@)
    }

    /// Where the path is.
    pub closed spec fn target(self) -> Place {
        self.absolute@
    }

    /// The root it is in.
    pub closed spec fn within(self) -> Place {
        self.root@
    }

    /// The canonical target.
    pub fn absolute(&self) -> (path: &Location)
        ensures
            path@ == self.target(),
            self.within().contains(path@),
    {
        proof {
            use_type_invariant(self);
        }
        &self.absolute
    }

    /// The authorized root that contains it.
    pub fn root(&self) -> (path: &Location)
        ensures
            path@ == self.within(),
            path@.contains(self.target()),
    {
        proof {
            use_type_invariant(self);
        }
        &self.root
    }
}

impl Clone for ResolvedPath {
    fn clone(&self) -> (path: Self)
        ensures
            path.target() == self.target(),
            path.within() == self.within(),
    {
        proof {
            use_type_invariant(self);
        }
        ResolvedPath { absolute: self.absolute.copy(), root: self.root.copy() }
    }
}

/// The roots a turn may read from.
#[derive(Debug, Clone, PartialEq, Eq)]
pub struct AccessScope {
    primary: Location,
    additional: Vec<Location>,
}

/// Several locations in mathematical terms.
pub open spec fn places(locations: Seq<Location>) -> Seq<Place> {
    locations.map_values(|location: Location| location@)
}

/// Whether one of `roots` contains `candidate`.
pub open spec fn covered(roots: Seq<Place>, candidate: Place) -> bool {
    exists|i: int| 0 <= i < roots.len() && (#[trigger] roots[i]).contains(candidate)
}

/// Whether the candidate at `at` grants something: the primary root does not
/// contain it, and no other candidate does, but for a repetition of it that was
/// named later.
pub open spec fn grants(primary: Place, candidates: Seq<Place>, at: int) -> bool {
    &&& !primary.contains(candidates[at])
    &&& forall|other: int|
        0 <= other < candidates.len() && (#[trigger] candidates[other]).contains(candidates[at])
            ==> candidates[other] == candidates[at] && at <= other
}

/// Those of the first `count` candidates that grant something, in their order.
pub open spec fn granting_first(primary: Place, candidates: Seq<Place>, count: nat) -> Seq<Place>
    decreases count,
{
    if count == 0 {
        Seq::empty()
    } else {
        let before = granting_first(primary, candidates, (count - 1) as nat);
        if grants(primary, candidates, count - 1) {
            before.push(candidates[count - 1])
        } else {
            before
        }
    }
}

/// The additional roots that grant something, in the order they were named.
pub open spec fn granting(primary: Place, candidates: Seq<Place>) -> Seq<Place> {
    granting_first(primary, candidates, candidates.len())
}

/// What several roots resolved to, or the first that is not one.
pub open spec fn roots_of(named: Seq<(String, Directory)>) -> Result<Seq<Place>, Problem>
    decreases named.len(),
{
    if named.len() == 0 {
        Ok(Seq::empty())
    } else {
        match roots_of(named.drop_last()) {
            Err(problem) => Err(problem),
            Ok(before) => match root_of(named.last().0@, named.last().1) {
                Ok(root) => Ok(before.push(root)),
                Err(problem) => Err(problem),
            },
        }
    }
}

/// The bytes of a path behind those of a directory, with a slash between the two
/// where the directory does not end in one.
pub open spec fn behind(directory: Seq<u8>, path: Seq<u8>) -> Seq<u8> {
    if directory.len() == 0 || directory.last() == 0x2f {
        directory + path
    } else {
        directory.push(0x2f) + path
    }
}

/// [`AccessScope`] in mathematical terms.
pub struct Scope {
    pub primary: Place,
    pub additional: Seq<Place>,
}

impl View for AccessScope {
    type V = Scope;

    closed spec fn view(&self) -> Scope {
        Scope { primary: self.primary@, additional: places(self.additional@) }
    }
}

impl Scope {
    /// Every authorized root, primary first.
    pub open spec fn roots(self) -> Seq<Place> {
        seq![self.primary] + self.additional
    }

    /// The first root that contains `canonical`.
    pub open spec fn root_for(self, canonical: Place) -> Option<Place> {
        first_containing(self.roots(), canonical)
    }

    /// The scope of a primary root and the roots the user named.
    pub open spec fn new(
        primary: Result<Place, Problem>,
        additional: Result<Seq<Place>, Problem>,
    ) -> Result<Scope, Problem> {
        match (primary, additional) {
            (Err(problem), _) => Err(problem),
            (_, Err(problem)) => Err(problem),
            (Ok(primary), Ok(candidates)) => Ok(
                Scope { primary, additional: granting(primary, candidates) },
            ),
        }
    }

    /// The bytes of the path a request is about: as it stands where it is
    /// absolute, or behind those of the workspace. None where the request says
    /// nothing.
    pub open spec fn anchored(self, requested: Seq<char>) -> Option<Seq<u8>> {
        let wanted = encode_utf8(text::trimmed(requested));
        if text::trimmed(requested).len() == 0 {
            None
        } else if wanted[0] == 0x2f {
            Some(wanted)
        } else {
            Some(behind(self.primary.bytes(), wanted))
        }
    }

    /// What is decided of a request, from what the filesystem said of the path
    /// it is about.
    pub open spec fn decide(self, requested: Seq<char>, found: Resolution) -> Result<
        (Place, Place),
        Problem,
    > {
        let trimmed = text::trimmed(requested);
        if trimmed.len() == 0 {
            Err(Problem::Empty)
        } else {
            match found {
                Resolution::Missing => Err(Problem::NotFound { requested: trimmed }),
                Resolution::Failed(detail) => Err(
                    Problem::Unresolvable { requested: trimmed, detail: detail@ },
                ),
                Resolution::Real(canonical) => match self.root_for(canonical@) {
                    Some(root) => Ok((canonical@, root)),
                    None => Err(Problem::OutsideScope { requested: trimmed }),
                },
            }
        }
    }
}

/// The first of `roots` that contains `canonical`.
pub open spec fn first_containing(roots: Seq<Place>, canonical: Place) -> Option<Place>
    decreases roots.len(),
{
    if roots.len() == 0 {
        None
    } else if roots[0].contains(canonical) {
        Some(roots[0])
    } else {
        first_containing(roots.skip(1), canonical)
    }
}

impl AccessScope {
    /// A scope containing only the workspace itself.
    pub fn primary_only(primary: (String, Directory)) -> (scope: Result<Self, PathError>)
        ensures
            match root_of(primary.0@, primary.1) {
                Ok(root) => scope matches Ok(s) && s@ == (Scope {
                    primary: root,
                    additional: Seq::empty(),
                }),
                Err(problem) => scope matches Err(error) && error@ == problem,
            },
    {
        let none: Vec<(String, Directory)> = Vec::new();
        AccessScope::new(primary, none)
    }

    /// A scope containing the workspace and the roots the user named, each with
    /// what the filesystem says of it.
    ///
    /// A root that is already inside another is dropped rather than kept: it
    /// grants nothing, and keeping it would make [`roots`](Self::roots) imply an
    /// authority that does not exist.
    pub fn new(primary: (String, Directory), additional: Vec<(String, Directory)>) -> (scope:
        Result<Self, PathError>)
        ensures
            match Scope::new(root_of(primary.0@, primary.1), roots_of(additional@)) {
                Ok(expected) => scope matches Ok(s) && s@ == expected,
                Err(problem) => scope matches Err(error) && error@ == problem,
            },
    {
        let ghost all = additional@;
        let ghost found = root_of(primary.0@, primary.1);
        let workspace: Location = match canonical_directory(primary.0.as_str(), primary.1) {
            Ok(root) => root,
            Err(error) => {
                return Err(error);
            },
        };
        let mut rest: Vec<(String, Directory)> = additional;
        let mut candidates: Vec<Location> = Vec::new();
        let ghost mut at: int = 0;
        proof {
            assert(rest@ =~= all.skip(0));
            assert(all.take(0) =~= Seq::empty());
            assert(places(candidates@) =~= Seq::empty());
        }
        while rest.len() > 0
            invariant
                0 <= at <= all.len(),
                all == additional@,
                rest@ == all.skip(at),
                found == root_of(primary.0@, primary.1),
                found == Ok::<Place, Problem>(workspace@),
                roots_of(all.take(at)) == Ok::<Seq<Place>, Problem>(places(candidates@)),
            decreases rest@.len(),
        {
            let ghost next = all.take(at + 1);
            let ghost before = places(candidates@);
            let (path, directory) = rest.remove(0);
            proof {
                assert(next.drop_last() =~= all.take(at));
                assert(next.last() == (path, directory));
                assert(rest@ =~= all.skip(at + 1));
                at = at + 1;
            }
            match canonical_directory(path.as_str(), directory) {
                Err(error) => {
                    proof {
                        lemma_first_problem(all, at);
                    }
                    return Err(error);
                },
                Ok(root) => {
                    let ghost added = root@;
                    candidates.push(root);
                    assert(places(candidates@) =~= before.push(added));
                },
            }
        }
        assert(all.take(at) =~= all);
        let mut roots: Vec<Location> = Vec::new();
        let mut next: usize = 0;
        assert(places(roots@) =~= Seq::empty());
        while next < candidates.len()
            invariant
                next <= candidates@.len(),
                places(roots@) == granting_first(workspace@, places(candidates@), next as nat),
            decreases candidates@.len() - next,
        {
            if grants_something(&workspace, &candidates, next) {
                let ghost kept = places(roots@);
                let root: Location = candidates[next].copy();
                roots.push(root);
                assert(places(roots@) =~= kept.push(candidates@[next as int]@));
            }
            next = next + 1;
        }
        Ok(AccessScope { primary: workspace, additional: roots })
    }

    /// The workspace root. Relative paths are resolved against it.
    pub fn primary(&self) -> (root: &Location)
        ensures
            root@ == self@.primary,
    {
        &self.primary
    }

    /// The extra roots, in the order the user named them.
    pub fn additional_roots(&self) -> (roots: &[Location])
        ensures
            places(roots@) == self@.additional,
    {
        self.additional.as_slice()
    }

    /// Every authorized root, primary first.
    pub fn roots(&self) -> (roots: Vec<&Location>)
        ensures
            roots@.map_values(|root: &Location| root@) == self@.roots(),
    {
        let mut roots: Vec<&Location> = Vec::new();
        roots.push(&self.primary);
        let mut at: usize = 0;
        while at < self.additional.len()
            invariant
                at <= self.additional@.len(),
                roots@.len() == at + 1,
                roots@[0]@ == self.primary@,
                forall|i: int|
                    0 < i <= at ==> (#[trigger] roots@[i])@ == self.additional@[i - 1]@,
            decreases self.additional@.len() - at,
        {
            roots.push(&self.additional[at]);
            at = at + 1;
        }
        assert(roots@.map_values(|root: &Location| root@) =~= self@.roots());
        roots
    }

    /// The root containing `canonical`, when one does. `canonical` must already
    /// be canonical; this is a comparison, not a resolution.
    pub fn root_for(&self, canonical: &Location) -> (root: Option<&Location>)
        ensures
            root is Some == self@.root_for(canonical@) is Some,
            root matches Some(r) ==> Some(r@) == self@.root_for(canonical@) && r@.contains(
                canonical@,
            ),
    {
        let ghost all = self@.roots();
        proof {
            assert(all[0] == self.primary@);
            assert(all.skip(1) =~= places(self.additional@));
        }
        if path_inside(&self.primary, canonical) {
            return Some(&self.primary);
        }
        let mut at: usize = 0;
        assert(places(self.additional@).skip(0) =~= places(self.additional@));
        while at < self.additional.len()
            invariant
                at <= self.additional@.len(),
                self@.root_for(canonical@) == first_containing(
                    places(self.additional@).skip(at as int),
                    canonical@,
                ),
            decreases self.additional@.len() - at,
        {
            proof {
                let rest = places(self.additional@).skip(at as int);
                assert(rest[0] == self.additional@[at as int]@);
                assert(rest.skip(1) =~= places(self.additional@).skip(at + 1));
            }
            if path_inside(&self.additional[at], canonical) {
                return Some(&self.additional[at]);
            }
            at = at + 1;
        }
        None
    }

    /// The path that is to be canonicalized for a request, byte for byte; none
    /// where the request says nothing. It is not resolved in any way: a slash
    /// behind a name still asks for a directory.
    pub fn anchored(&self, requested: &str) -> (path: Option<Vec<u8>>)
        ensures
            match path {
                Some(bytes) => self@.anchored(requested@) == Some(bytes@),
                None => self@.anchored(requested@) is None,
            },
    {
        let trimmed: String = text::trim(requested);
        if trimmed.as_str().unicode_len() == 0 {
            return None;
        }
        let wanted: &[u8] = trimmed.as_str().as_bytes();
        proof {
            encode_utf8_first_scalar(trimmed@);
        }
        if wanted[0] == 0x2f {
            return Some(copied(wanted));
        }
        let mut path: Vec<u8> = self.primary.bytes();
        let ghost directory = path@;
        if path.len() > 0 && path[path.len() - 1] != 0x2f {
            path.push(0x2f);
        }
        path.extend_from_slice(wanted);
        assert(path@ =~= behind(directory, wanted@));
        Some(path)
    }

    /// Decides a request for an existing path, from what the filesystem said of
    /// [`anchored`](Self::anchored).
    ///
    /// The order matters: trim, anchor, canonicalize, then test containment.
    /// Testing containment on the unresolved string would approve a symlink
    /// whose target is outside.
    pub fn resolve_existing(&self, requested: &str, found: Resolution) -> (resolved: Result<
        ResolvedPath,
        PathError,
    >)
        ensures
            match self@.decide(requested@, found) {
                Ok((target, root)) => resolved matches Ok(path) && path.target() == target
                    && path.within() == root,
                Err(problem) => resolved matches Err(error) && error@ == problem,
            },
    {
        let trimmed: String = text::trim(requested);
        if trimmed.as_str().unicode_len() == 0 {
            return Err(PathError::Empty);
        }
        match found {
            Resolution::Missing => Err(PathError::NotFound { requested: trimmed }),
            Resolution::Failed(detail) => Err(
                PathError::Unresolvable { requested: trimmed, detail },
            ),
            Resolution::Real(canonical) => {
                let root: Option<&Location> = self.root_for(&canonical);
                match root {
                    Some(root) => {
                        let root: Location = root.copy();
                        Ok(ResolvedPath { absolute: canonical, root })
                    },
                    None => Err(PathError::OutsideScope { requested: trimmed }),
                }
            },
        }
    }

    /// How a canonical path is shown to the model: relative to the workspace
    /// inside it, with the workspace itself as a single dot, and absolute
    /// anywhere else.
    pub fn display_path(&self, canonical: &Location) -> (shown: String)
        ensures
            shown@ == self@.shown(canonical@),
            canonical@ != self@.primary && valid_utf8(self@.shown_place(canonical@).bytes())
                ==> shown@ == decode_utf8(self@.shown_place(canonical@).bytes()),
    {
        proof {
            let own = self.primary@.names;
            assert(own.take(own.len() as int) =~= own);
        }
        if canonical.same(&self.primary) {
            return ".".to_owned();
        }
        if path_inside(&self.primary, canonical) {
            let count: usize = self.primary.names.len();
            let mut names: Vec<Vec<u8>> = copied_names(&canonical.names, canonical.names.len());
            assert(named(names@).len() == names@.len());
            let below: Vec<Vec<u8>> = names.split_off(count);
            let relative: Location = Location {
                absolute: canonical.absolute && !self.primary.absolute,
                names: below,
            };
            proof {
                let whole = named(canonical.names@);
                assert(whole.take(whole.len() as int) =~= whole);
                assert(named(below@) =~= whole.skip(count as int));
            }
            return relative.display();
        }
        canonical.display()
    }
}

impl Scope {
    /// The path that is shown for a canonical one other than the workspace: what
    /// lies behind the workspace inside it, the path itself anywhere else.
    pub open spec fn shown_place(self, canonical: Place) -> Place {
        if self.primary.contains(canonical) {
            Place {
                absolute: canonical.absolute && !self.primary.absolute,
                names: canonical.names.skip(self.primary.names.len() as int),
            }
        } else {
            canonical
        }
    }

    /// How a canonical path is shown to the model.
    pub open spec fn shown(self, canonical: Place) -> Seq<char> {
        if canonical == self.primary {
            "."@
        } else {
            lossy(self.shown_place(canonical).bytes())
        }
    }
}

/// Whether the candidate at `at` grants something that neither the primary root
/// nor another candidate does.
fn grants_something(primary: &Location, candidates: &Vec<Location>, at: usize) -> (yes: bool)
    requires
        at < candidates@.len(),
    ensures
        yes == grants(primary@, places(candidates@), at as int),
{
    let ghost all = places(candidates@);
    let candidate: &Location = &candidates[at];
    if path_inside(primary, candidate) {
        return false;
    }
    let mut other: usize = 0;
    while other < candidates.len()
        invariant
            all == places(candidates@),
            at < candidates@.len(),
            candidate@ == all[at as int],
            other <= candidates@.len(),
            forall|i: int|
                0 <= i < other && (#[trigger] all[i]).contains(candidate@) ==> all[i]
                    == candidate@ && at <= i,
        decreases candidates@.len() - other,
    {
        assert(all[other as int] == candidates@[other as int]@);
        if path_inside(&candidates[other], candidate) {
            let repeated: bool = candidates[other].same(candidate);
            if !repeated || other < at {
                return false;
            }
        }
        other = other + 1;
    }
    true
}

/// The first root that is not one is what is reported.
proof fn lemma_first_problem(all: Seq<(String, Directory)>, at: int)
    requires
        0 <= at <= all.len(),
        roots_of(all.take(at)) is Err,
    ensures
        roots_of(all) is Err,
        roots_of(all)->Err_0 == roots_of(all.take(at))->Err_0,
    decreases all.len() - at,
{
    if at == all.len() {
        assert(all.take(at) =~= all);
    } else {
        assert(all.take(at + 1).drop_last() =~= all.take(at));
        lemma_first_problem(all, at + 1);
    }
}

// ---------------------------------------------------------------------------
// laws
// ---------------------------------------------------------------------------

/// Containment is an order: every path contains itself, and what is beneath a
/// path beneath a root is beneath the root.
pub proof fn law_containment(a: Place, b: Place, c: Place)
    ensures
        a.contains(a),
        a.contains(b) && b.contains(c) ==> a.contains(c),
        a.contains(b) && b.contains(a) && a.absolute == b.absolute ==> a == b,
{
    assert(a.names.take(a.names.len() as int) =~= a.names);
    if a.contains(b) && b.contains(c) {
        let n = a.names.len() as int;
        assert(c.names.take(n) =~= c.names.take(b.names.len() as int).take(n));
    }
    if a.contains(b) && b.contains(a) {
        assert(b.names.take(a.names.len() as int) =~= b.names);
    }
}

proof fn lemma_first_containing(roots: Seq<Place>, canonical: Place)
    ensures
        first_containing(roots, canonical) is Some == covered(roots, canonical),
        first_containing(roots, canonical) matches Some(root) ==> roots.contains(root)
            && root.contains(canonical),
    decreases roots.len(),
{
    if roots.len() > 0 {
        let rest = roots.skip(1);
        lemma_first_containing(rest, canonical);
        if covered(rest, canonical) {
            let i = choose|i: int| 0 <= i < rest.len() && (#[trigger] rest[i]).contains(canonical);
            assert(roots[i + 1].contains(canonical));
        }
        if covered(roots, canonical) && !roots[0].contains(canonical) {
            let i = choose|i: int|
                0 <= i < roots.len() && (#[trigger] roots[i]).contains(canonical);
            assert(rest[i - 1].contains(canonical));
        }
        if let Some(root) = first_containing(roots, canonical) {
            if roots[0].contains(canonical) {
                assert(roots.contains(roots[0]));
            } else {
                let i = choose|i: int| 0 <= i < rest.len() && rest[i] == root;
                assert(roots[i + 1] == root);
            }
        }
    }
}

/// A request is granted exactly when its real path is in a root the user
/// authorized, and what is handed out is that path in such a root.
pub proof fn law_only_the_scope_is_granted(scope: Scope, requested: Seq<char>, found: Resolution)
    ensures
        scope.decide(requested, found) is Ok <==> text::trimmed(requested).len() > 0 && (
        found matches Resolution::Real(canonical) && covered(scope.roots(), canonical@)),
        scope.decide(requested, found) matches Ok((target, root)) ==> (
        found matches Resolution::Real(canonical) && target == canonical@)
            && scope.roots().contains(root) && root.contains(target),
{
    if let Resolution::Real(canonical) = found {
        lemma_first_containing(scope.roots(), canonical@);
    }
}

/// A refusal says nothing of what lies outside the scope: two paths that are
/// refused for where they resolve are refused alike.
pub proof fn law_a_refusal_hides_its_target(
    scope: Scope,
    requested: Seq<char>,
    one: Location,
    other: Location,
)
    requires
        scope.decide(requested, Resolution::Real(one)) is Err,
        scope.decide(requested, Resolution::Real(other)) is Err,
    ensures
        scope.decide(requested, Resolution::Real(one)) == scope.decide(
            requested,
            Resolution::Real(other),
        ),
{
}

/// Where among the candidates the kept root at `index` was named.
spec fn named_at(primary: Place, candidates: Seq<Place>, count: nat, index: int) -> int
    decreases count,
{
    if count == 0 {
        -1
    } else if index < granting_first(primary, candidates, (count - 1) as nat).len() {
        named_at(primary, candidates, (count - 1) as nat, index)
    } else {
        count - 1
    }
}

/// A kept root is a candidate that grants something, and the kept ones follow
/// each other as they were named.
proof fn lemma_kept(primary: Place, candidates: Seq<Place>, count: nat, index: int)
    requires
        count <= candidates.len(),
        0 <= index < granting_first(primary, candidates, count).len(),
    ensures
        ({
            let at = named_at(primary, candidates, count, index);
            &&& 0 <= at < count
            &&& grants(primary, candidates, at)
            &&& granting_first(primary, candidates, count)[index] == candidates[at]
            &&& forall|later: int|
                index < later < granting_first(primary, candidates, count).len() ==> at
                    < #[trigger] named_at(primary, candidates, count, later)
        }),
    decreases count,
{
    let before = (count - 1) as nat;
    let kept = granting_first(primary, candidates, before);
    if index < kept.len() {
        lemma_kept(primary, candidates, before, index);
        assert forall|later: int|
            index < later < granting_first(primary, candidates, count).len() implies named_at(
            primary,
            candidates,
            count,
            index,
        ) < #[trigger] named_at(primary, candidates, count, later) by {
            if later < kept.len() {
                assert(named_at(primary, candidates, count, later) == named_at(
                    primary,
                    candidates,
                    before,
                    later,
                ));
            }
        }
    }
}

/// A candidate that grants something is kept.
proof fn lemma_granting_is_kept(primary: Place, candidates: Seq<Place>, count: nat, at: int)
    requires
        0 <= at < count <= candidates.len(),
        grants(primary, candidates, at),
    ensures
        granting_first(primary, candidates, count).contains(candidates[at]),
    decreases count,
{
    let kept = granting_first(primary, candidates, count);
    if at == count - 1 {
        assert(kept.last() == candidates[at]);
    } else {
        lemma_granting_is_kept(primary, candidates, (count - 1) as nat, at);
        let before = granting_first(primary, candidates, (count - 1) as nat);
        let i = choose|i: int| 0 <= i < before.len() && before[i] == candidates[at];
        assert(kept[i] == before[i]);
    }
}

/// What a candidate contains, the primary root or a kept one contains: whatever
/// contains a dropped candidate is further out, or the same and named earlier.
proof fn lemma_still_granted(primary: Place, candidates: Seq<Place>, at: int, target: Place)
    requires
        0 <= at < candidates.len(),
        candidates[at].contains(target),
    ensures
        primary.contains(target) || covered(granting(primary, candidates), target),
    decreases
            candidates[at].names.len(),
            (if candidates[at].absolute {
                1int
            } else {
                0
            }),
            at,
{
    let candidate = candidates[at];
    let kept = granting(primary, candidates);
    if primary.contains(candidate) {
        law_containment(primary, candidate, target);
    } else if grants(primary, candidates, at) {
        lemma_granting_is_kept(primary, candidates, candidates.len(), at);
        let i = choose|i: int| 0 <= i < kept.len() && kept[i] == candidate;
        assert(kept[i].contains(target));
    } else {
        let other = choose|other: int|
            0 <= other < candidates.len() && (#[trigger] candidates[other]).contains(candidate)
                && !(candidates[other] == candidate && at <= other);
        let outer = candidates[other];
        law_containment(outer, candidate, target);
        if outer != candidate && outer.names.len() == candidate.names.len() {
            assert(candidate.names.take(outer.names.len() as int) =~= candidate.names);
            assert(outer.names =~= candidate.names);
        }
        lemma_still_granted(primary, candidates, other, target);
    }
}

/// Dropping the roots that others contain takes no authority away and adds none:
/// the roots of a scope contain exactly what the named ones do.
pub proof fn law_dropped_roots_grant_nothing(
    primary: Place,
    candidates: Seq<Place>,
    target: Place,
)
    ensures
        covered(seq![primary] + granting(primary, candidates), target) == (primary.contains(target)
            || covered(candidates, target)),
{
    let kept = granting(primary, candidates);
    let roots = seq![primary] + kept;
    assert(roots[0] == primary);
    if covered(candidates, target) {
        let at = choose|i: int|
            0 <= i < candidates.len() && (#[trigger] candidates[i]).contains(target);
        lemma_still_granted(primary, candidates, at, target);
        if covered(kept, target) {
            let i = choose|i: int| 0 <= i < kept.len() && (#[trigger] kept[i]).contains(target);
            assert(roots[i + 1] == kept[i]);
        }
    }
    if covered(roots, target) {
        let i = choose|i: int| 0 <= i < roots.len() && (#[trigger] roots[i]).contains(target);
        if i > 0 {
            lemma_kept(primary, candidates, candidates.len(), i - 1);
            let at = named_at(primary, candidates, candidates.len(), i - 1);
            assert(roots[i] == kept[i - 1]);
            assert(candidates[at].contains(target));
        }
    }
}

/// No root that a scope keeps is inside the workspace or inside another that it
/// keeps.
pub proof fn law_kept_roots_are_apart(primary: Place, candidates: Seq<Place>)
    ensures
        ({
            let kept = granting(primary, candidates);
            &&& forall|i: int| 0 <= i < kept.len() ==> !primary.contains(#[trigger] kept[i])
            &&& forall|i: int, j: int|
                0 <= i < kept.len() && 0 <= j < kept.len() && i != j ==> !(
                #[trigger] kept[i]).contains(#[trigger] kept[j])
        }),
{
    let kept = granting(primary, candidates);
    let count = candidates.len();
    assert forall|i: int| 0 <= i < kept.len() implies !primary.contains(#[trigger] kept[i]) by {
        lemma_kept(primary, candidates, count, i);
    }
    assert forall|i: int, j: int|
        0 <= i < kept.len() && 0 <= j < kept.len() && i != j implies !(
    #[trigger] kept[i]).contains(#[trigger] kept[j]) by {
        lemma_kept(primary, candidates, count, i);
        lemma_kept(primary, candidates, count, j);
        let one = named_at(primary, candidates, count, i);
        let other = named_at(primary, candidates, count, j);
        assert(one != other);
        if kept[i].contains(kept[j]) {
            assert(candidates[one].contains(candidates[other]));
            assert(candidates[other].contains(candidates[one]));
        }
    }
}

/// The parts of a path's bytes around one of its slashes are those in front of it
/// and those behind it.
proof fn lemma_slashed_concat(front: Seq<u8>, back: Seq<u8>)
    ensures
        slashed(front).len() > 0,
        slashed(front.push(0x2f) + back) == slashed(front) + slashed(back),
    decreases front.len() + back.len(),
{
    if front.len() > 0 {
        lemma_slashed_concat(front.drop_last(), Seq::empty());
    }
    let whole = front.push(0x2f) + back;
    if back.len() == 0 {
        assert(whole =~= front.push(0x2f));
        assert(whole.drop_last() =~= front);
        assert(slashed(front).push(Seq::empty()) =~= slashed(front) + slashed(back));
    } else {
        let less = back.drop_last();
        lemma_slashed_concat(front, less);
        lemma_slashed_concat(less, Seq::empty());
        assert(whole.drop_last() =~= front.push(0x2f) + less);
        assert(whole.last() == back.last());
        let before = slashed(front) + slashed(less);
        assert(before.last() == slashed(less).last());
        assert(before.drop_last() =~= slashed(front) + slashed(less).drop_last());
        assert(slashed(whole) =~= slashed(front) + slashed(back));
    }
}

/// A name without a slash is one part.
proof fn lemma_one_part(name: Seq<u8>)
    requires
        !name.contains(0x2f),
    ensures
        slashed(name) == seq![name],
    decreases name.len(),
{
    if name.len() > 0 {
        let less = name.drop_last();
        assert forall|i: int| 0 <= i < less.len() implies less[i] != 0x2f by {
            assert(name.contains(name[i]));
        }
        lemma_one_part(less);
        assert(name.contains(name.last()));
        assert(less.push(name.last()) =~= name);
        assert(slashed(name) =~= seq![name]);
    } else {
        assert(name =~= Seq::empty());
        assert(slashed(name) =~= seq![name]);
    }
}

/// Whether names are as a path has them: each something, and without a slash.
pub open spec fn are_names(names: Seq<Seq<u8>>) -> bool {
    forall|i: int| 0 <= i < names.len() ==> (#[trigger] names[i]).len() > 0 && !names[i].contains(
        0x2f,
    )
}

/// Names with slashes between them are parted into those names again.
proof fn lemma_names_again(names: Seq<Seq<u8>>)
    requires
        names.len() > 0,
        are_names(names),
    ensures
        slashed(slash_joined(names)) == names,
    decreases names.len(),
{
    let last = names.last();
    assert(names[names.len() - 1] == last);
    lemma_one_part(last);
    if names.len() == 1 {
        assert(seq![last] =~= names);
    } else {
        let less = names.drop_last();
        assert forall|i: int| 0 <= i < less.len() implies (#[trigger] less[i]).len() > 0
            && !less[i].contains(0x2f) by {
            assert(less[i] == names[i]);
        }
        lemma_names_again(less);
        lemma_slashed_concat(slash_joined(less), last);
        assert(less + seq![last] =~= names);
    }
}

/// What the parts of a path name behind others: nothing that is empty, and no
/// dot.
proof fn lemma_naming_concat(front: Seq<Seq<u8>>, back: Seq<Seq<u8>>)
    requires
        front.len() > 0,
    ensures
        naming(front + back) == naming(front) + back.filter(
            |name: Seq<u8>| name.len() > 0 && name != dot(),
        ),
    decreases back.len(),
{
    let says = |name: Seq<u8>| name.len() > 0 && name != dot();
    reveal(Seq::filter);
    let all = front + back;
    if back.len() == 0 {
        assert(all =~= front);
        assert(naming(front) + back.filter(says) =~= naming(front));
    } else {
        lemma_naming_concat(front, back.drop_last());
        assert(all.drop_last() =~= front + back.drop_last());
        assert(all.last() == back.last());
        assert(naming(all) =~= naming(front) + back.filter(says));
    }
}

/// What a path that opens with a name says: that name, and what the parts behind
/// it name.
proof fn lemma_naming_first(parts: Seq<Seq<u8>>)
    requires
        parts.len() > 0,
        parts[0].len() > 0,
    ensures
        naming(parts) == seq![parts[0]] + parts.skip(1).filter(
            |name: Seq<u8>| name.len() > 0 && name != dot(),
        ),
        parts.filter(|name: Seq<u8>| name.len() > 0 && name != dot()) == (if parts[0] == dot() {
            parts.skip(1).filter(|name: Seq<u8>| name.len() > 0 && name != dot())
        } else {
            naming(parts)
        }),
{
    let says = |name: Seq<u8>| name.len() > 0 && name != dot();
    let first = seq![parts[0]];
    assert(first + parts.skip(1) =~= parts);
    lemma_naming_concat(first, parts.skip(1));
    reveal_with_fuel(naming, 2);
    assert(naming(first) =~= first);
    lemma_filter_concat(first, parts.skip(1));
    reveal(Seq::filter);
    reveal_with_fuel(Seq::filter, 2);
    assert(first.drop_last() =~= Seq::empty());
    assert(first.filter(says) =~= if parts[0] == dot() {
        Seq::empty()
    } else {
        first
    });
}

proof fn lemma_filter_concat(a: Seq<Seq<u8>>, b: Seq<Seq<u8>>)
    ensures
        (a + b).filter(|name: Seq<u8>| name.len() > 0 && name != dot()) == a.filter(
            |name: Seq<u8>| name.len() > 0 && name != dot(),
        ) + b.filter(|name: Seq<u8>| name.len() > 0 && name != dot()),
    decreases b.len(),
{
    let says = |name: Seq<u8>| name.len() > 0 && name != dot();
    reveal(Seq::filter);
    if b.len() == 0 {
        assert(a + b =~= a);
        assert(a.filter(says) + b.filter(says) =~= a.filter(says));
    } else {
        lemma_filter_concat(a, b.drop_last());
        assert((a + b).drop_last() =~= a + b.drop_last());
        assert((a + b).last() == b.last());
        assert((a + b).filter(says) =~= a.filter(says) + b.filter(says));
    }
}

/// A path reads back as it was written: where every name is something, without a
/// slash and no dot, its bytes say just those names, and that it is absolute
/// exactly where they begin with a slash.
pub proof fn law_a_path_reads_back(path: Place)
    requires
        are_names(path.names),
        forall|i: int| 0 <= i < path.names.len() ==> #[trigger] path.names[i] != dot(),
    ensures
        place_of(path.bytes()) == path,
        path.absolute == (path.bytes().len() > 0 && path.bytes()[0] == 0x2f),
{
    let names = path.names;
    let joined = slash_joined(names);
    let says = |name: Seq<u8>| name.len() > 0 && name != dot();
    reveal_with_fuel(naming, 3);
    if names.len() > 0 {
        lemma_names_again(names);
        lemma_first_byte(names);
        lemma_naming_first(names);
        lemma_all_kept(names);
    }
    lemma_slashed_concat(Seq::empty(), joined);
    let none: Seq<u8> = Seq::empty();
    assert(none.push(0x2f) + joined =~= seq![0x2fu8] + joined);
    assert(slashed(none) =~= seq![none]);
    if path.absolute {
        assert(slashed(path.bytes()) == seq![none] + slashed(joined));
        lemma_naming_concat(seq![none], slashed(joined));
        assert(naming(seq![none]) =~= Seq::empty());
        if names.len() > 0 {
            assert(place_of(path.bytes()).names =~= names);
        } else {
            assert(slashed(joined) =~= seq![none]);
            reveal(Seq::filter);
            reveal_with_fuel(Seq::filter, 2);
            assert(seq![none].drop_last() =~= Seq::empty());
            assert(place_of(path.bytes()).names =~= names);
        }
    } else if names.len() == 0 {
        assert(slashed(joined) =~= seq![none]);
        assert(place_of(path.bytes()).names =~= names);
    }
}

proof fn lemma_all_kept(names: Seq<Seq<u8>>)
    requires
        are_names(names),
        forall|i: int| 0 <= i < names.len() ==> #[trigger] names[i] != dot(),
    ensures
        names.filter(|name: Seq<u8>| name.len() > 0 && name != dot()) == names,
    decreases names.len(),
{
    reveal(Seq::filter);
    if names.len() > 0 {
        let less = names.drop_last();
        assert forall|i: int| 0 <= i < less.len() implies (#[trigger] less[i]).len() > 0
            && !less[i].contains(0x2f) && less[i] != dot() by {
            assert(less[i] == names[i]);
        }
        lemma_all_kept(less);
        assert(names[names.len() - 1] == names.last());
        assert(less.push(names.last()) =~= names);
    } else {
        assert(names =~= Seq::empty());
    }
}

proof fn lemma_first_byte(names: Seq<Seq<u8>>)
    requires
        names.len() > 0,
        are_names(names),
    ensures
        slash_joined(names).len() > 0,
        slash_joined(names)[0] == names[0][0],
        slash_joined(names)[0] != 0x2f,
    decreases names.len(),
{
    assert(names[0].contains(names[0][0]));
    if names.len() > 1 {
        let less = names.drop_last();
        assert forall|i: int| 0 <= i < less.len() implies (#[trigger] less[i]).len() > 0
            && !less[i].contains(0x2f) by {
            assert(less[i] == names[i]);
        }
        lemma_first_byte(less);
    }
}

/// A request that does not begin with a slash is below the workspace, whatever
/// it names: the path that is asked about has the workspace's bytes in front,
/// those of the request behind them, with one slash between the two, and says
/// what the request says taken relative to the workspace. Its first names are
/// those of the workspace. A request that begins with a slash is asked about as
/// it stands.
pub proof fn law_a_request_is_anchored_below_the_workspace(scope: Scope, requested: Seq<char>)
    requires
        text::trimmed(requested).len() > 0,
        place_of(scope.primary.bytes()) == scope.primary,
    ensures
        ({
            let wanted = encode_utf8(text::trimmed(requested));
            let home = scope.primary.bytes();
            &&& wanted.len() > 0
            &&& scope.anchored(requested) matches Some(path) && {
                &&& wanted[0] == 0x2f ==> path == wanted
                &&& wanted[0] != 0x2f ==> {
                    &&& home.is_prefix_of(path)
                    &&& wanted.is_suffix_of(path)
                    &&& path.len() == home.len() + wanted.len() || (path.len() == home.len() + 1
                        + wanted.len() && path[home.len() as int] == 0x2f)
                    &&& home.len() > 0 ==> path[path.len() - wanted.len() - 1] == 0x2f
                    &&& place_of(path) == scope.primary.join(place_of(wanted))
                    &&& scope.primary.contains(place_of(path))
                }
            }
        }),
{
    let wanted = encode_utf8(text::trimmed(requested));
    let home = scope.primary.bytes();
    encode_utf8_first_scalar(text::trimmed(requested));
    if wanted[0] != 0x2f {
        let path = behind(home, wanted);
        let parts = slashed(wanted);
        lemma_first_part(wanted);
        lemma_naming_first(parts);
        let says = |name: Seq<u8>| name.len() > 0 && name != dot();
        assert(path.subrange(path.len() - wanted.len(), path.len() as int) =~= wanted);
        if home.len() == 0 {
            assert(path =~= wanted);
            assert(home =~= Seq::empty());
            assert(slashed(home) =~= seq![home]);
            reveal_with_fuel(naming, 2);
            assert(naming(seq![home]) =~= Seq::empty());
            assert(scope.primary.names.len() == 0);
            assert(place_of(path).names.take(0) =~= scope.primary.names);
        } else {
            let front = if home.last() == 0x2f {
                home.drop_last()
            } else {
                home
            };
            assert(path =~= front.push(0x2f) + wanted);
            assert(path[0] == home[0]);
            lemma_slashed_concat(front, wanted);
            lemma_naming_concat(slashed(front), parts);
            if home.last() == 0x2f {
                assert(slashed(home) == slashed(front).push(Seq::empty()));
                assert(slashed(home).drop_last() =~= slashed(front));
                assert(naming(slashed(home)) == naming(slashed(front)));
            }
            assert(naming(slashed(front)) == scope.primary.names);
            assert(place_of(path).names == scope.primary.names + parts.filter(says));
            let joined = scope.primary.join(place_of(wanted));
            assert(naming(parts)[0] == parts[0]);
            if parts[0] == dot() {
                assert(naming(parts).skip(1) =~= parts.skip(1).filter(says));
            }
            assert(scope.primary.absolute == (home[0] == 0x2f));
            if !scope.primary.absolute && scope.primary.names.len() == 0 {
                reveal_with_fuel(slash_joined, 1);
                assert(home.len() == 0);
            }
            assert(joined.names =~= place_of(path).names);
            assert(place_of(path).names.take(scope.primary.names.len() as int)
                =~= scope.primary.names);
        }
    }
}

/// What does not begin with a slash begins with a part that says something.
proof fn lemma_first_part(bytes: Seq<u8>)
    requires
        bytes.len() > 0,
        bytes[0] != 0x2f,
    ensures
        slashed(bytes).len() > 0,
        slashed(bytes)[0].len() > 0,
        slashed(bytes)[0][0] == bytes[0],
    decreases bytes.len(),
{
    reveal_with_fuel(slashed, 2);
    if bytes.len() > 1 {
        lemma_first_part(bytes.drop_last());
    } else {
        assert(bytes.drop_last() =~= Seq::empty());
    }
}

/// A child is one name below, its parent is where it came from, and a path
/// contains its children and theirs; two children of different names contain
/// nothing of each other, and a path never contains its parent.
pub proof fn law_a_child_is_below_its_parent(
    path: Place,
    name: Seq<u8>,
    other: Seq<u8>,
    deep: Place,
)
    ensures
        path.child(name).parent() == Some(path),
        path.child(name).names.len() == path.names.len() + 1,
        path.child(name).names.last() == name,
        path.child(name).absolute == path.absolute,
        path.contains(path.child(name)),
        !path.child(name).contains(path),
        name != other ==> !path.child(name).contains(path.child(other)),
        name != other && path.child(other).contains(deep) ==> !path.child(name).contains(deep),
        path.parent() is None <==> path.names.len() == 0,
{
    let child = path.child(name);
    let twin = path.child(other);
    let count = path.names.len() as int;
    assert(child.names.drop_last() =~= path.names);
    assert(child.names.take(count) =~= path.names);
    assert(twin.names.take(count + 1) =~= twin.names);
    assert(child.names[count] == name);
    assert(twin.names[count] == other);
    if twin.contains(deep) && child.contains(deep) {
        assert(deep.names.take(count + 1)[count] == name);
        assert(deep.names.take(count + 1)[count] == other);
    }
}

/// What a path contains is itself and what its children contain: every path
/// inside another, other than that one, is inside exactly one child of it. The
/// name is that child's.
pub proof fn law_containment_is_by_whole_names(root: Place, path: Place) -> (name: Seq<u8>)
    requires
        root.contains(path),
        root.absolute == path.absolute,
        root != path,
    ensures
        root.child(name).contains(path),
        path.names[root.names.len() as int] == name,
{
    let count = root.names.len() as int;
    if path.names.len() == count {
        assert(path.names.take(count) =~= path.names);
    }
    let name = path.names[count];
    assert(path.names.take(count + 1) =~= root.names.push(name)) by {
        assert forall|i: int| 0 <= i < count implies path.names[i] == root.names[i] by {
            assert(path.names.take(count)[i] == root.names[i]);
        }
    }
    name
}

/// Taken relative to a path, names go behind its own, one after the other, and
/// an absolute path stays what it is; a dot in front says nothing.
pub proof fn law_relative_paths_go_behind(path: Place, names: Seq<Seq<u8>>, absolute: Place)
    requires
        path.absolute,
        absolute.absolute,
        names.len() > 0 ==> names[0] != dot(),
    ensures
        path.join(Place { absolute: false, names }) == (Place {
            absolute: true,
            names: path.names + names,
        }),
        path.join(Place { absolute: false, names: seq![dot()] + names }) == (Place {
            absolute: true,
            names: path.names + names,
        }),
        path.join(absolute) == absolute,
{
    assert((seq![dot()] + names).skip(1) =~= names);
}

/// Resolving dots takes nothing else away: names that are no dots stay as they
/// are, in order; a dot behind names says nothing; two dots take back the name
/// before them, and nothing at the top. What is resolved holds no dots.
pub proof fn law_dots_are_resolved(names: Seq<Seq<u8>>, name: Seq<u8>)
    requires
        name != dot(),
        name != dot_dot(),
    ensures
        resolved(names.push(name)) == resolved(names).push(name),
        resolved(names.push(dot())) == resolved(names),
        resolved(names.push(name).push(dot_dot())) == resolved(names),
        resolved(seq![dot_dot()] + names) == resolved(names),
        resolved(seq![dot()] + names) == resolved(names),
        resolved(Seq::empty()) == Seq::<Seq<u8>>::empty(),
        !resolved(names).contains(dot()) && !resolved(names).contains(dot_dot()),
        (forall|i: int|
            0 <= i < names.len() ==> #[trigger] names[i] != dot() && names[i] != dot_dot())
            ==> resolved(names) == names,
{
    assert(names.push(name).drop_last() =~= names);
    assert(names.push(dot()).drop_last() =~= names);
    assert(names.push(name).push(dot_dot()).drop_last() =~= names.push(name));
    assert(resolved(names).push(name).drop_last() =~= resolved(names));
    assert(dot().len() != dot_dot().len());
    lemma_opened_by_dots(names);
    lemma_resolved(names);
}

proof fn lemma_opened_by_dots(names: Seq<Seq<u8>>)
    ensures
        resolved(seq![dot_dot()] + names) == resolved(names),
        resolved(seq![dot()] + names) == resolved(names),
    decreases names.len(),
{
    let up = seq![dot_dot()] + names;
    let here = seq![dot()] + names;
    assert(dot().len() != dot_dot().len());
    if names.len() == 0 {
        assert(up.drop_last() =~= Seq::empty());
        assert(here.drop_last() =~= Seq::empty());
        reveal_with_fuel(resolved, 2);
        assert(up.last() == dot_dot());
        assert(here.last() == dot());
    } else {
        lemma_opened_by_dots(names.drop_last());
        assert(up.drop_last() =~= seq![dot_dot()] + names.drop_last());
        assert(here.drop_last() =~= seq![dot()] + names.drop_last());
        assert(up.last() == names.last());
        assert(here.last() == names.last());
    }
}

proof fn lemma_resolved(names: Seq<Seq<u8>>)
    ensures
        forall|i: int|
            0 <= i < resolved(names).len() ==> #[trigger] resolved(names)[i] != dot() && resolved(
                names,
            )[i] != dot_dot(),
        (forall|i: int|
            0 <= i < names.len() ==> #[trigger] names[i] != dot() && names[i] != dot_dot())
            ==> resolved(names) == names,
    decreases names.len(),
{
    if names.len() > 0 {
        let less = names.drop_last();
        lemma_resolved(less);
        let before = resolved(less);
        assert forall|i: int| 0 <= i < resolved(names).len() implies #[trigger] resolved(names)[i]
            != dot() && resolved(names)[i] != dot_dot() by {
            if i < before.len() {
                assert(before[i] == resolved(names)[i]);
            }
        }
        if forall|i: int|
            0 <= i < names.len() ==> #[trigger] names[i] != dot() && names[i] != dot_dot() {
            assert forall|i: int| 0 <= i < less.len() implies #[trigger] less[i] != dot() && less[i]
                != dot_dot() by {
                assert(less[i] == names[i]);
            }
            assert(names[names.len() - 1] == names.last());
            assert(less.push(names.last()) =~= names);
        }
    }
}

/// What is shown of a path leads back to it: inside the workspace it is relative,
/// and taken relative to the workspace it is the path again; anywhere else it is
/// the path. The workspace itself is shown as a dot, and nothing else is shown
/// through that.
pub proof fn law_what_is_shown_leads_back(scope: Scope, canonical: Place)
    requires
        scope.primary.absolute,
        forall|i: int| 0 <= i < canonical.names.len() ==> #[trigger] canonical.names[i] != dot(),
    ensures
        scope.primary.join(scope.shown_place(canonical)) == canonical || !canonical.absolute,
        scope.primary.contains(canonical) ==> !scope.shown_place(canonical).absolute
            && scope.shown_place(canonical).names.len() + scope.primary.names.len()
            == canonical.names.len(),
        !scope.primary.contains(canonical) ==> scope.shown_place(canonical) == canonical,
        scope.shown(scope.primary) == "."@,
        canonical != scope.primary ==> scope.shown(canonical) == lossy(
            scope.shown_place(canonical).bytes(),
        ),
{
    let own = scope.primary.names;
    if scope.primary.contains(canonical) {
        let rest = canonical.names.skip(own.len() as int);
        assert(own + rest =~= canonical.names);
        if rest.len() > 0 {
            assert(rest[0] == canonical.names[own.len() as int]);
        }
        assert(scope.primary.join(scope.shown_place(canonical)).names =~= canonical.names);
    }
}

/// Why a request is refused follows from what was asked and what was found: it
/// says nothing, or nothing is there, or the system failed on it, or it is in no
/// root; and every refusal but the first names what was asked, without the white
/// space around it.
pub proof fn law_a_refusal_has_its_cause(
    scope: Scope,
    requested: Seq<char>,
    found: Resolution,
)
    ensures
        (forall|i: int| 0 <= i < requested.len() ==> text::is_white(#[trigger] requested[i])) <==> (
        scope.decide(requested, found) == Err::<(Place, Place), Problem>(Problem::Empty)),
        ({
            let asked = text::trimmed(requested);
            let decided = scope.decide(requested, found);
            asked.len() > 0 ==> match found {
                Resolution::Missing => decided == Err::<(Place, Place), Problem>(
                    Problem::NotFound { requested: asked },
                ),
                Resolution::Failed(why) => decided == Err::<(Place, Place), Problem>(
                    Problem::Unresolvable { requested: asked, detail: why@ },
                ),
                Resolution::Real(canonical) => if covered(scope.roots(), canonical@) {
                    decided is Ok
                } else {
                    decided == Err::<(Place, Place), Problem>(
                        Problem::OutsideScope { requested: asked },
                    )
                },
            }
        }),
{
    let ends = text::law_trimming_takes_white_space_only(requested);
    if ends.0 < ends.1 {
        assert(!text::is_white(requested[ends.0]));
    }
    if let Resolution::Real(canonical) = found {
        lemma_first_containing(scope.roots(), canonical@);
    }
}

/// The root that a path is granted in is the first that contains it: no root in
/// front of it does, and the workspace comes before every other. The number is
/// where it stands among the roots.
pub proof fn law_the_first_root_grants(scope: Scope, canonical: Place) -> (at: int)
    requires
        covered(scope.roots(), canonical),
    ensures
        0 <= at < scope.roots().len(),
        scope.root_for(canonical) == Some(scope.roots()[at]),
        scope.roots()[at].contains(canonical),
        forall|i: int| 0 <= i < at ==> !(#[trigger] scope.roots()[i]).contains(canonical),
        scope.primary.contains(canonical) ==> scope.root_for(canonical) == Some(scope.primary),
{
    let at = lemma_first_at(scope.roots(), canonical);
    assert(scope.roots()[0] == scope.primary);
    at
}

proof fn lemma_first_at(roots: Seq<Place>, canonical: Place) -> (at: int)
    requires
        covered(roots, canonical),
    ensures
        0 <= at < roots.len(),
        first_containing(roots, canonical) == Some(roots[at]),
        roots[at].contains(canonical),
        forall|i: int| 0 <= i < at ==> !(#[trigger] roots[i]).contains(canonical),
    decreases roots.len(),
{
    if roots[0].contains(canonical) {
        0
    } else {
        let rest = roots.skip(1);
        let i = choose|i: int| 0 <= i < roots.len() && (#[trigger] roots[i]).contains(canonical);
        assert(rest[i - 1].contains(canonical));
        let at = lemma_first_at(rest, canonical);
        assert forall|k: int| 0 <= k < at + 1 implies !(#[trigger] roots[k]).contains(
            canonical,
        ) by {
            if k > 0 {
                assert(rest[k - 1] == roots[k]);
            }
        }
        at + 1
    }
}

/// The roots of a scope are those that were named, in the order they were named
/// in. The numbers are where two of them were.
pub proof fn law_kept_roots_stay_in_order(
    primary: Place,
    candidates: Seq<Place>,
    i: int,
    j: int,
) -> (at: (int, int))
    requires
        0 <= i < j < granting(primary, candidates).len(),
    ensures
        0 <= at.0 < at.1 < candidates.len(),
        granting(primary, candidates)[i] == candidates[at.0],
        granting(primary, candidates)[j] == candidates[at.1],
{
    lemma_in_order(primary, candidates, candidates.len(), i, j)
}

proof fn lemma_in_order(
    primary: Place,
    candidates: Seq<Place>,
    count: nat,
    i: int,
    j: int,
) -> (at: (int, int))
    requires
        0 <= i < j < granting_first(primary, candidates, count).len(),
        count <= candidates.len(),
    ensures
        0 <= at.0 < at.1 < count,
        granting_first(primary, candidates, count)[i] == candidates[at.0],
        granting_first(primary, candidates, count)[j] == candidates[at.1],
    decreases count,
{
    let before = granting_first(primary, candidates, (count - 1) as nat);
    if j < before.len() {
        lemma_in_order(primary, candidates, (count - 1) as nat, i, j)
    } else {
        let at = lemma_from(primary, candidates, (count - 1) as nat, i);
        (at, count - 1)
    }
}

proof fn lemma_from(primary: Place, candidates: Seq<Place>, count: nat, i: int) -> (at: int)
    requires
        0 <= i < granting_first(primary, candidates, count).len(),
        count <= candidates.len(),
    ensures
        0 <= at < count,
        granting_first(primary, candidates, count)[i] == candidates[at],
    decreases count,
{
    let before = granting_first(primary, candidates, (count - 1) as nat);
    if i < before.len() {
        lemma_from(primary, candidates, (count - 1) as nat, i)
    } else {
        count - 1
    }
}

/// Roots are had where every one of them is a directory, each at its real path
/// and in the order they were named in; or else the first that is none is what
/// is reported, by the name it was given.
pub proof fn law_every_root_is_a_directory(named: Seq<(String, Directory)>)
    ensures
        roots_of(named) is Ok <==> forall|i: int|
            0 <= i < named.len() ==> (#[trigger] named[i]).1 is Real,
        roots_of(named) matches Ok(roots) ==> roots.len() == named.len() && forall|i: int|
            0 <= i < named.len() ==> (#[trigger] named[i]).1 == Directory::Real(named[i].1->Real_0)
                && roots[i] == named[i].1->Real_0@,
        roots_of(named) matches Err(problem) ==> exists|i: int| {
            &&& 0 <= i < named.len()
            &&& (#[trigger] named[i]).1 !is Real
            &&& forall|k: int| 0 <= k < i ==> (#[trigger] named[k]).1 is Real
            &&& problem == Problem::RootUnavailable {
                path: named[i].0@,
                detail: match named[i].1 {
                    Directory::Failed(why) => why@,
                    _ => "not a directory"@,
                },
            }
        },
    decreases named.len(),
{
    if named.len() > 0 {
        let less = named.drop_last();
        law_every_root_is_a_directory(less);
        assert forall|i: int| 0 <= i < less.len() implies (#[trigger] less[i]) == named[i] by {
        }
        assert(named[named.len() - 1] == named.last());
        if let Err(problem) = roots_of(named) {
            let i = if roots_of(less) is Err {
                choose|i: int| {
                    &&& 0 <= i < less.len()
                    &&& (#[trigger] less[i]).1 !is Real
                    &&& forall|k: int| 0 <= k < i ==> (#[trigger] less[k]).1 is Real
                    &&& roots_of(less)->Err_0 == Problem::RootUnavailable {
                        path: less[i].0@,
                        detail: match less[i].1 {
                            Directory::Failed(why) => why@,
                            _ => "not a directory"@,
                        },
                    }
                }
            } else {
                named.len() - 1
            };
            assert(named[i].1 !is Real);
            assert forall|k: int| 0 <= k < i implies (#[trigger] named[k]).1 is Real by {
                if k < less.len() {
                    assert(less[k] == named[k]);
                }
            }
        }
        if let Ok(roots) = roots_of(named) {
            let before = roots_of(less)->Ok_0;
            assert forall|i: int| 0 <= i < named.len() implies (#[trigger] named[i]).1 is Real
                && roots[i] == named[i].1->Real_0@ by {
                if i < less.len() {
                    assert(less[i] == named[i]);
                    assert(roots[i] == before[i]);
                }
            }
        }
        if forall|i: int| 0 <= i < named.len() ==> (#[trigger] named[i]).1 is Real {
            assert forall|i: int| 0 <= i < less.len() implies (#[trigger] less[i]).1 is Real by {
                assert(less[i] == named[i]);
            }
        }
    }
}

/// What the model is told of a refusal holds what was asked for, and the
/// system's own words where there are any; and a path that is missing, one that
/// is elsewhere and one that cannot be resolved are told apart.
pub proof fn law_a_refusal_says_what_was_asked(asked: Seq<char>, detail: Seq<char>)
    ensures
        text::holds(Problem::NotFound { requested: asked }.message(), asked),
        text::holds(Problem::OutsideScope { requested: asked }.message(), asked),
        text::holds(Problem::Unresolvable { requested: asked, detail }.message(), asked),
        text::holds(Problem::Unresolvable { requested: asked, detail }.message(), detail),
        text::holds(Problem::RootUnavailable { path: asked, detail }.message(), asked),
        text::holds(Problem::RootUnavailable { path: asked, detail }.message(), detail),
        text::holds(Problem::NotFound { requested: asked }.message(), "no such path"@),
        text::holds(Problem::OutsideScope { requested: asked }.message(), "outside"@),
        text::holds(Problem::Unresolvable { requested: asked, detail }.message(), "cannot resolve"@),
        text::holds(Problem::RootUnavailable { path: asked, detail }.message(), "directory"@),
        text::holds(Problem::Empty.message(), "empty"@),
{
    reveal_strlit("no such path: `");
    reveal_strlit("no such path");
    reveal_strlit("` resolves outside the authorized workspace roots");
    reveal_strlit("outside");
    reveal_strlit("cannot resolve `");
    reveal_strlit("cannot resolve");
    reveal_strlit("` is not a usable directory: ");
    reveal_strlit("directory");
    reveal_strlit("the path must not be empty");
    reveal_strlit("empty");
    reveal_strlit("`");
    reveal_strlit("`: ");
    let missing = Problem::NotFound { requested: asked }.message();
    assert(missing.subrange(15, 15 + asked.len() as int) =~= asked);
    assert(text::stands_at(missing, asked, 15));
    assert(missing.subrange(0, 12) =~= "no such path"@);
    assert(text::stands_at(missing, "no such path"@, 0));
    let elsewhere = Problem::OutsideScope { requested: asked }.message();
    assert(elsewhere.subrange(1, 1 + asked.len() as int) =~= asked);
    assert(text::stands_at(elsewhere, asked, 1));
    let word = 1 + asked.len() as int + 11;
    assert(elsewhere.subrange(word, word + 7) =~= "outside"@);
    assert(text::stands_at(elsewhere, "outside"@, word));
    let failed = Problem::Unresolvable { requested: asked, detail }.message();
    assert(failed.subrange(16, 16 + asked.len() as int) =~= asked);
    assert(text::stands_at(failed, asked, 16));
    assert(failed.subrange(0, 14) =~= "cannot resolve"@);
    assert(text::stands_at(failed, "cannot resolve"@, 0));
    let why = 16 + asked.len() as int + 3;
    assert(failed.subrange(why, why + detail.len() as int) =~= detail);
    assert(text::stands_at(failed, detail, why));
    let root = Problem::RootUnavailable { path: asked, detail }.message();
    assert(root.subrange(1, 1 + asked.len() as int) =~= asked);
    assert(text::stands_at(root, asked, 1));
    let kind = 1 + asked.len() as int + 18;
    assert(root.subrange(kind, kind + 9) =~= "directory"@);
    assert(text::stands_at(root, "directory"@, kind));
    let why = 1 + asked.len() as int + 29;
    assert(root.subrange(why, why + detail.len() as int) =~= detail);
    assert(text::stands_at(root, detail, why));
    let nothing = Problem::Empty.message();
    assert(nothing.subrange(21, 26) =~= "empty"@);
    assert(text::stands_at(nothing, "empty"@, 21));
}

/// A scope is made where its workspace and every other root can be had: it has
/// that workspace, and of the others those that grant something. What is wrong
/// with the workspace is reported before what is wrong with another.
pub proof fn law_a_scope_is_made_of_its_roots(
    primary: Place,
    candidates: Seq<Place>,
    problem: Problem,
    other: Result<Seq<Place>, Problem>,
)
    ensures
        Scope::new(Err(problem), other) == Err::<Scope, Problem>(problem),
        Scope::new(Ok(primary), Err(problem)) == Err::<Scope, Problem>(problem),
        Scope::new(Ok(primary), Ok(candidates)) matches Ok(scope) && scope.primary == primary
            && scope.roots()[0] == primary && scope.roots().skip(1) == granting(
            primary,
            candidates,
        ),
{
    let scope = Scope { primary, additional: granting(primary, candidates) };
    assert(scope.roots().skip(1) =~= scope.additional);
}

/// The bytes of a path are its names with one slash between each two and none
/// behind the last, behind one slash where it is absolute: a child's are its
/// parent's, one slash where the parent has names, and the child's name.
pub proof fn law_a_name_is_written_behind_one_slash(path: Place, name: Seq<u8>)
    ensures
        path.names.len() > 0 ==> path.child(name).bytes() == path.bytes() + seq![0x2fu8] + name,
        path.names.len() == 0 && path.absolute ==> path.bytes() == seq![0x2fu8] && path.child(
            name,
        ).bytes() == seq![0x2fu8] + name,
        path.names.len() == 0 && !path.absolute ==> path.bytes().len() == 0 && path.child(
            name,
        ).bytes() == name,
{
    let child = path.child(name);
    assert(child.names.drop_last() =~= path.names);
    assert(child.names.last() == name);
    if path.names.len() > 0 {
        assert(child.bytes() =~= path.bytes() + seq![0x2fu8] + name);
    } else if path.absolute {
        assert(path.bytes() =~= seq![0x2fu8]);
    }
}

} // verus!
