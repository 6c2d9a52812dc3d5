//! Resolving a path whose last components need not exist, one question at a time.
use crate::paths;
use crate::text;
use crate::{CmdError, CmdErrorModel};
use vstd::prelude::*;

verus! {

/// A file system: which paths exist, and what a path is when its symlinks are resolved, or why that
/// could not be found out.
pub struct FileSystem {
    pub exists: spec_fn(Seq<char>) -> bool,
    pub canonical: spec_fn(Seq<char>) -> Result<Seq<char>, Seq<char>>,
}

/// The path of the first `n` components.
pub open spec fn leading(absolute: bool, parts: Seq<Seq<char>>, n: int) -> Seq<char> {
    let rest = text::join(parts.take(n), seq!['/']);
    if absolute {
        seq!['/'] + rest
    } else {
        rest
    }
}

/// How many of the first `n` components the deepest existing ancestor has. The top is not asked
/// for: there is nothing above it.
pub open spec fn existing_depth(
    absolute: bool,
    parts: Seq<Seq<char>>,
    n: int,
    fs: FileSystem,
) -> int
    decreases n,
{
    if n <= 0 {
        0
    } else if (fs.exists)(leading(absolute, parts, n)) {
        n
    } else {
        existing_depth(absolute, parts, n - 1, fs)
    }
}

/// `dir` followed by the components.
pub open spec fn extended(dir: Seq<char>, parts: Seq<Seq<char>>) -> Seq<char>
    decreases parts.len(),
{
    if parts.len() == 0 {
        dir
    } else {
        paths::joined(extended(dir, parts.drop_last()), parts.last())
    }
}

/// What a path is when its first `n` components are resolved.
pub open spec fn resolved_at(
    absolute: bool,
    parts: Seq<Seq<char>>,
    n: int,
    canonical: Result<Seq<char>, Seq<char>>,
) -> Result<Seq<char>, CmdErrorModel> {
    match canonical {
        Ok(dir) => Ok(extended(dir, parts.skip(n))),
        Err(why) => Err(
            crate::env_error(
                "cannot resolve "@ + leading(absolute, parts, parts.len() as int) + ": "@ + why,
            ),
        ),
    }
}

/// Absolute form of `path` seen from `cwd`, with the symlinks resolved in its deepest existing
/// ancestor.
pub open spec fn absolute_form(
    cwd: Seq<char>,
    path: Seq<char>,
    fs: FileSystem,
) -> Result<Seq<char>, CmdErrorModel> {
    let base = paths::joined(cwd, path);
    let absolute = paths::is_absolute(base);
    let parts = paths::reduced(text::split(base, '/'));
    let n = existing_depth(absolute, parts, parts.len() as int, fs);
    resolved_at(absolute, parts, n, (fs.canonical)(leading(absolute, parts, n)))
}

/// What has to be found out next.
pub enum ResolveRequest {
    /// Whether this path exists.
    Exists(String),
    /// What this path is when its symlinks are resolved.
    Canonicalize(String),
}

/// A path on its way to its absolute form.
pub struct Resolve {
    absolute: bool,
    parts: Vec<String>,
    depth: usize,
    found: bool,
}

fn leading_text(absolute: bool, parts: &Vec<String>, n: usize) -> (r: String)
    requires
        n <= parts@.len(),
    ensures
        r@ == leading(absolute, parts.deep_view(), n as int),
{
    let mut head: Vec<String> = Vec::new();
    let mut i: usize = 0;
    assert(head.deep_view() =~= parts.deep_view().take(0));
    while i < n
        invariant
            i <= n <= parts@.len(),
            head.deep_view() == parts.deep_view().take(i as int),
        decreases n - i,
    {
        let ghost before = head.deep_view();
        head.push(parts[i].clone());
        assert(head.deep_view() =~= before.push(parts@[i as int]@));
        assert(head.deep_view() =~= parts.deep_view().take(i + 1));
        i += 1;
    }
    let rest = text::join_text(&head, "/");
    proof {
        reveal_strlit("/");
        assert("/"@ =~= seq!['/']);
    }
    if absolute {
        let mut out = "/".to_owned();
        out.append(rest.as_str());
        out
    } else {
        rest
    }
}

impl Resolve {
    /// The components of the path.
    pub closed spec fn parts(&self) -> Seq<Seq<char>> {
        self.parts.deep_view()
    }

    /// A path on its way.
    pub closed spec fn wf(&self) -> bool {
        &&& self.depth <= self.parts@.len()
        &&& self.depth == 0 ==> self.found
    }

    /// Whether the deepest existing ancestor is found.
    pub closed spec fn found(&self) -> bool {
        self.found
    }

    /// The path that is asked about.
    pub closed spec fn asked(&self) -> Seq<char> {
        leading(self.absolute, self.parts(), self.depth as int)
    }

    /// How many components are still in question.
    pub closed spec fn left(&self) -> nat {
        self.depth as nat
    }

    /// What the path resolves to on a file system.
    pub closed spec fn result(&self, fs: FileSystem) -> Result<Seq<char>, CmdErrorModel> {
        let n = if self.found {
            self.depth as int
        } else {
            existing_depth(self.absolute, self.parts(), self.depth as int, fs)
        };
        resolved_at(
            self.absolute,
            self.parts(),
            n,
            (fs.canonical)(leading(self.absolute, self.parts(), n)),
        )
    }

    /// Starts to resolve `path` seen from the directory `cwd`.
    pub fn new(cwd: &str, path: &str) -> (r: Resolve)
        ensures
            r.wf(),
            forall|fs: FileSystem| #[trigger] r.result(fs) == absolute_form(cwd@, path@, fs),
    {
        let base = paths::join_path(cwd, path);
        let parts = paths::reduced_texts(base.as_str());
        let depth = parts.len();
        assert(parts.deep_view().len() == depth);
        Resolve { absolute: paths::absolute(base.as_str()), parts, depth, found: depth == 0 }
    }

    /// What has to be found out next.
    pub fn request(&self) -> (r: ResolveRequest)
        requires
            self.wf(),
        ensures
            match r {
                ResolveRequest::Exists(path) => !self.found() && path@ == self.asked(),
                ResolveRequest::Canonicalize(path) => self.found() && path@ == self.asked(),
            },
    {
        let path = leading_text(self.absolute, &self.parts, self.depth);
        if self.found {
            ResolveRequest::Canonicalize(path)
        } else {
            ResolveRequest::Exists(path)
        }
    }

    /// The answer to whether the path exists.
    pub fn on_exists(self, exists_there: bool) -> (r: Resolve)
        requires
            self.wf(),
            !self.found(),
        ensures
            r.wf(),
            r.found() || r.left() < self.left(),
            forall|fs: FileSystem|
                (fs.exists)(self.asked()) == exists_there ==> #[trigger] r.result(fs)
                    == self.result(fs),
    {
        proof {
            reveal_with_fuel(existing_depth, 2);
        }
        let Resolve { absolute, parts, depth, found: _ } = self;
        if exists_there {
            Resolve { absolute, parts, depth, found: true }
        } else {
            Resolve { absolute, parts, depth: depth - 1, found: depth == 1 }
        }
    }

    /// The absolute form, given what the deepest existing ancestor is when its symlinks are
    /// resolved.
    pub fn finish(self, canonical: Result<String, String>) -> (r: Result<String, CmdError>)
        requires
            self.wf(),
            self.found(),
        ensures
            forall|fs: FileSystem|
                (fs.canonical)(self.asked()) == (match canonical {
                    Ok(dir) => Ok::<Seq<char>, Seq<char>>(dir@),
                    Err(why) => Err(why@),
                }) ==> crate::outcome(r) == #[trigger] self.result(fs),
    {
        match canonical {
            Ok(dir) => {
                let ghost rest = self.parts().skip(self.depth as int);
                let ghost top = dir@;
                let mut out = dir;
                let mut i: usize = self.depth;
                assert(rest.take(0) =~= Seq::empty());
                while i < self.parts.len()
                    invariant
                        self.depth <= i <= self.parts@.len(),
                        rest == self.parts().skip(self.depth as int),
                        out@ == extended(top, rest.take(i - self.depth)),
                    decreases self.parts@.len() - i,
                {
                    proof {
                        let k = i - self.depth;
                        assert(rest.take(k + 1).drop_last() =~= rest.take(k));
                        assert(rest.take(k + 1).last() == self.parts@[i as int]@);
                    }
                    out = paths::join_path(out.as_str(), self.parts[i].as_str());
                    i += 1;
                }
                assert(rest.take(rest.len() as int) =~= rest);
                Ok(out)
            },
            Err(why) => {
                let mut message = "cannot resolve ".to_owned();
                message.append(
                    leading_text(self.absolute, &self.parts, self.parts.len()).as_str(),
                );
                message.append(": ");
                message.append(why.as_str());
                Err(CmdError::env(message.as_str()))
            },
        }
    }
}

/// A path that exists is what it is when its symlinks are resolved.
pub proof fn law_existing_paths_are_canonical(cwd: Seq<char>, path: Seq<char>, fs: FileSystem)
    requires
        (fs.exists)(paths::normalized(paths::joined(cwd, path))),
        (fs.canonical)(paths::normalized(paths::joined(cwd, path))) is Ok,
    ensures
        absolute_form(cwd, path, fs) == Ok::<Seq<char>, CmdErrorModel>(
            (fs.canonical)(paths::normalized(paths::joined(cwd, path)))->Ok_0,
        ),
{
    let base = paths::joined(cwd, path);
    let parts = paths::reduced(text::split(base, '/'));
    let n = parts.len() as int;
    assert(parts.take(n) =~= parts);
    assert(parts.skip(n) =~= Seq::empty());
}

} // verus!
