//! Error values: a kind, and the context lines that callers attached on the
//! way out, innermost first.
use vstd::prelude::*;
use vstd::string::StringExecFns;

verus! {

/// What went wrong.
#[derive(Debug)]
pub enum ErrorKind {
    /// A file could not be opened, read, written or positioned.
    IOError(String),
    /// The caller's input was malformed.
    ValueError(String),
    /// Stored data could not be taken as a unit array.
    CorruptedDataError(String),
    /// Construction failed for an internal reason.
    UnknownError(String),
}

#[derive(Debug)]
pub struct Error {
    pub kind: ErrorKind,
    pub contexts: Vec<String>,
}

/// The rendered context lines, outermost first, each on a line of its own
/// after a `" - "` marker.
pub open spec fn contexts_text(cs: Seq<Seq<char>>) -> Seq<char>
    decreases cs.len(),
{
    if cs.len() == 0 {
        Seq::empty()
    } else {
        "\n - "@ + cs.last() + contexts_text(cs.drop_last())
    }
}

pub open spec fn views(cs: Seq<String>) -> Seq<Seq<char>> {
    cs.map_values(|c: String| c@)
}

impl Error {
    pub fn new(kind: ErrorKind) -> (r: Self)
        ensures
            r.kind == kind,
            r.contexts@.len() == 0,
    {
        Error { kind, contexts: Vec::new() }
    }

    /// Attaches one more context line, outside all earlier ones.
    pub fn ext_context(self, ctx: String) -> (r: Self)
        ensures
            r.kind == self.kind,
            r.contexts@ == self.contexts@.push(ctx),
    {
        let mut e = self;
        e.contexts.push(ctx);
        e
    }

    /// The context lines, outermost first.
    pub fn collect_contexts(&self) -> (r: String)
        ensures
            r@ == contexts_text(views(self.contexts@)),
    {
        let mut res = String::new();
        let mut i: usize = self.contexts.len();
        assert(self.contexts@.take(i as int) =~= self.contexts@);
        assert(res@ + contexts_text(views(self.contexts@)) =~= contexts_text(views(self.contexts@)));
        while i > 0
            invariant
                i <= self.contexts@.len(),
                contexts_text(views(self.contexts@)) == res@ + contexts_text(
                    views(self.contexts@.take(i as int)),
                ),
            decreases i,
        {
            let ghost cs = views(self.contexts@.take(i as int));
            proof {
                assert(cs.drop_last() =~= views(self.contexts@.take(i - 1)));
                assert(cs.last() == self.contexts@[i - 1]@);
            }
            res.append("\n - ");
            res.append(self.contexts[i - 1].as_str());
            proof {
                reveal_strlit("\n - ");
                assert(contexts_text(views(self.contexts@)) =~= res@ + contexts_text(
                    views(self.contexts@.take(i - 1)),
                ));
            }
            i = i - 1;
        }
        assert(views(self.contexts@.take(0)) =~= Seq::<Seq<char>>::empty());
        assert(res@ =~= res@ + Seq::<char>::empty());
        res
    }
}

/// What `with_context` gives for `r`: an `Ok` passes through with no
/// context made; an error keeps its kind and gains `ctx` as its outermost
/// context line.
pub open spec fn context_added<T>(r: Result<T, Error>, ctx: Option<String>, out: Result<T, Error>) -> bool {
    match r {
        Ok(v) => ctx is None && out == Ok::<T, Error>(v),
        Err(e) => match (ctx, out) {
            (Some(c), Err(e2)) => e2.kind == e.kind && e2.contexts@ == e.contexts@.push(c),
            _ => false,
        },
    }
}

pub trait Context<T>: Sized {
    /// The result as it stands, as a `Result` with this crate's error.
    spec fn as_result(self) -> Result<T, Error>;

    /// Wraps an error with one more context line, produced by `f` only once
    /// an error is there.
    fn with_context<F: FnOnce() -> String>(self, f: F) -> (r: Result<T, Error>)
        requires
            f.requires(()),
        ensures
            exists|ctx: Option<String>|
                context_added(self.as_result(), ctx, r) && (ctx matches Some(c) ==> f.ensures(
                    (),
                    c,
                )),
    ;
}

impl<T> Context<T> for Result<T, Error> {
    open spec fn as_result(self) -> Result<T, Error> {
        self
    }

    fn with_context<F: FnOnce() -> String>(self, f: F) -> (r: Result<T, Error>) {
        match self {
            Ok(v) => {
                let r = Ok(v);
                assert(context_added(self.as_result(), None, r));
                r
            },
            Err(e) => {
                let c = f();
                let ghost cg = c;
                let r = Err(e.ext_context(c));
                assert(context_added(self.as_result(), Some(cg), r));
                r
            },
        }
    }
}

} // verus!
