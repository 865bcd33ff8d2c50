use vstd::prelude::*;

use crate::filter::lines_view;

verus! {

#[verifier::external_type_specification]
#[verifier::external_body]
pub struct ExIoError(std::io::Error);

/// A fatal startup failure: the run aborts before any extraction begins.
pub enum UnpackError {
    /// A generic I/O failure with its underlying cause.
    IO(std::io::Error),
    /// A required file was absent: the path looked for, and the cause.
    FileNotFound(String, std::io::Error),
    /// A failure nothing more is known about.
    Unknown,
}

/// Relies on `std::fmt::Display` for `std::io::Error` and on
/// `std::error::Error::source`: renders the error and each of its transitive
/// causes to one line of text each. Verified code cannot walk the chain of
/// `&dyn Error` sources itself, so the whole chain is collected here. The
/// first line is always the error's own rendering, so the chain is never
/// empty.
#[verifier::external_body]
fn io_error_chain(e: &std::io::Error) -> (r: Vec<String>)
    ensures
        r@.len() >= 1,
{
    let mut out = vec![format!("{}", e)];
    let mut src: Option<&dyn std::error::Error> = std::error::Error::source(e);
    while let Some(s) = src {
        out.push(format!("{}", s));
        src = s.source();
    }
    out
}

/// The cause lines of a report: each cause indented by a tab, one per line.
pub open spec fn cause_lines(causes: Seq<Seq<char>>) -> Seq<char>
    decreases causes.len(),
{
    if causes.len() == 0 {
        Seq::empty()
    } else {
        cause_lines(causes.drop_last()) + seq!['\t'] + causes.last() + seq!['\n']
    }
}

/// A rendered failure report: the headline, then, when causes are known,
/// a blank line, a `Caused by:` line, and one indented line per cause.
pub open spec fn spec_report(msg: Seq<char>, causes: Seq<Seq<char>>) -> Seq<char> {
    if causes.len() == 0 {
        msg + seq!['\n']
    } else {
        msg + seq!['\n'] + seq!['\n'] + "Caused by:"@ + seq!['\n'] + cause_lines(causes)
    }
}

/// Render a headline and its cause lines exactly as `spec_report` says.
pub fn render_report(headline: &str, causes: &Vec<String>) -> (r: String)
    ensures
        r@ == spec_report(headline@, lines_view(causes@)),
{
    proof {
        reveal_strlit("\t");
        reveal_strlit("\n");
    }
    let mut s = headline.to_owned();
    s.append("\n");
    if causes.len() == 0 {
        proof {
            assert(s@ =~= spec_report(headline@, lines_view(causes@)));
        }
        return s;
    }
    s.append("\n");
    s.append("Caused by:");
    s.append("\n");
    let ghost cv = lines_view(causes@);
    let ghost head = s@;
    let mut k: usize = 0;
    while k < causes.len()
        invariant
            k <= causes.len(),
            cv == lines_view(causes@),
            cv.len() == causes@.len(),
            s@ == head + cause_lines(cv.take(k as int)),
        decreases causes.len() - k,
    {
        proof {
            assert(cv.take(k + 1 as int).drop_last() =~= cv.take(k as int));
            assert(cv.take(k + 1 as int).last() == cv[k as int]);
            assert(cv[k as int] == causes@[k as int]@);
            reveal_strlit("\t");
            reveal_strlit("\n");
            assert("\t"@ =~= seq!['\t']);
            assert("\n"@ =~= seq!['\n']);
        }
        s.append("\t");
        s.append(causes[k].as_str());
        s.append("\n");
        proof {
            assert(cause_lines(cv.take(k + 1 as int)) == cause_lines(cv.take(k as int))
                + seq!['\t'] + cv[k as int] + seq!['\n']);
            assert(s@ =~= head + cause_lines(cv.take(k + 1 as int)));
        }
        k = k + 1;
    }
    proof {
        assert(cv.take(causes@.len() as int) =~= cv);
        assert(s@ =~= spec_report(headline@, cv));
    }
    s
}

impl UnpackError {
    /// The headline each variant reports.
    pub open spec fn spec_message(&self) -> Seq<char> {
        match self {
            UnpackError::IO(_) => "generic I/O error"@,
            UnpackError::FileNotFound(path, _) => "could not find "@ + path@,
            UnpackError::Unknown => "unknown error"@,
        }
    }

    /// The headline for this error.
    pub fn message(&self) -> (r: String)
        ensures
            r@ == self.spec_message(),
    {
        match self {
            UnpackError::IO(_) => "generic I/O error".to_owned(),
            UnpackError::FileNotFound(path, _) => {
                let mut s = "could not find ".to_owned();
                s.append(path.as_str());
                s
            },
            UnpackError::Unknown => "unknown error".to_owned(),
        }
    }

    /// The full report for this error: its headline, then one line per
    /// underlying cause. A variant that carries an I/O error always has at
    /// least one cause — the I/O error itself — so its report always shows
    /// the `Caused by:` block; which lines follow only the I/O error can
    /// say, but the report's shape is exact either way.
    pub fn report(&self) -> (r: String)
        ensures
            self is Unknown ==> r@ == spec_report(self.spec_message(), Seq::empty()),
            !(self is Unknown) ==> exists|causes: Seq<Seq<char>>|
                causes.len() >= 1 && r@ == spec_report(self.spec_message(), causes),
            exists|causes: Seq<Seq<char>>| r@ == spec_report(self.spec_message(), causes),
    {
        match self {
            UnpackError::IO(e) => {
                let causes = io_error_chain(e);
                let r = render_report(self.message().as_str(), &causes);
                proof {
                    assert(lines_view(causes@).len() == causes@.len());
                    assert(r@ == spec_report(self.spec_message(), lines_view(causes@)));
                }
                r
            },
            UnpackError::FileNotFound(_, e) => {
                let causes = io_error_chain(e);
                let r = render_report(self.message().as_str(), &causes);
                proof {
                    assert(lines_view(causes@).len() == causes@.len());
                    assert(r@ == spec_report(self.spec_message(), lines_view(causes@)));
                }
                r
            },
            UnpackError::Unknown => {
                let causes: Vec<String> = Vec::new();
                let r = render_report(self.message().as_str(), &causes);
                proof {
                    assert(lines_view(causes@) =~= Seq::<Seq<char>>::empty());
                }
                r
            },
        }
    }
}

} // verus!
