use vstd::prelude::*;

verus! {

/// The one error taxonomy threaded through every pipeline stage: the first
/// error encountered anywhere halts all further pulling and writing.
#[derive(Debug)]
pub enum RteError {
    /// A malformed scheme URL or project path.
    Parse(String),
    /// A non-success HTTP response, carrying the response body text.
    Http { url: String, status: u16, body: String },
    /// File content that is not valid UTF-8 text.
    Encoding { path: String },
    /// A path containing a parent-directory segment.
    Traversal { path: String },
    /// A path that failed to render as a template.
    TemplatePath { path: String, detail: String },
    /// File content that failed to render as a template.
    Template { path: String, detail: String },
    /// A corrupt or truncated tar or gzip stream.
    TarDecode { detail: String },
    /// A record that cannot be written to an archive: its name or content
    /// does not fit a plain tar header.
    Unarchivable { path: String },
}

/// The decimal digit character for a value below ten.
pub open spec fn digit_char(d: nat) -> char {
    if d == 0 {
        '0'
    } else if d == 1 {
        '1'
    } else if d == 2 {
        '2'
    } else if d == 3 {
        '3'
    } else if d == 4 {
        '4'
    } else if d == 5 {
        '5'
    } else if d == 6 {
        '6'
    } else if d == 7 {
        '7'
    } else if d == 8 {
        '8'
    } else {
        '9'
    }
}

/// The decimal rendering of a natural number, most significant digit first.
pub open spec fn dec_str(n: nat) -> Seq<char>
    decreases n,
{
    if n < 10 {
        seq![digit_char(n)]
    } else {
        dec_str(n / 10) + seq![digit_char(n % 10)]
    }
}

fn digit_str(d: u16) -> (r: &'static str)
    requires
        d < 10,
    ensures
        r@ == seq![digit_char(d as nat)],
{
    let r: &'static str = match d {
        0 => "0",
        1 => "1",
        2 => "2",
        3 => "3",
        4 => "4",
        5 => "5",
        6 => "6",
        7 => "7",
        8 => "8",
        _ => "9",
    };
    proof {
        reveal_strlit("0");
        reveal_strlit("1");
        reveal_strlit("2");
        reveal_strlit("3");
        reveal_strlit("4");
        reveal_strlit("5");
        reveal_strlit("6");
        reveal_strlit("7");
        reveal_strlit("8");
        reveal_strlit("9");
    }
    r
}

/// Renders a status code (or any small number) in decimal.
pub fn u16_to_string(n: u16) -> (r: String)
    ensures
        r@ == dec_str(n as nat),
    decreases n,
{
    if n < 10 {
        digit_str(n).to_owned()
    } else {
        let mut s = u16_to_string(n / 10);
        s.append(digit_str(n % 10));
        s
    }
}

impl RteError {
    /// The descriptive text of this error, naming the offending path, URL or
    /// identifier.
    pub open spec fn spec_message(&self) -> Seq<char> {
        match self {
            RteError::Parse(s) => s@,
            RteError::Http { url, status, body } => "API '"@ + url@ + "' returned error "@
                + dec_str(*status as nat) + ": "@ + body@,
            RteError::Encoding { path } => "file '"@ + path@ + "' is not a UTF8 text file"@,
            RteError::Traversal { path } => "invalid path '"@ + path@ + "' containing .."@,
            RteError::TemplatePath { path, detail } => "failed to render path '"@ + path@ + "': "@
                + detail@,
            RteError::Template { path, detail } => "template execution for '"@ + path@
                + "' failed: "@ + detail@,
            RteError::TarDecode { detail } => "invalid archive: "@ + detail@,
            RteError::Unarchivable { path } => "file '"@ + path@
                + "' cannot be archived: its name or content does not fit a tar header"@,
        }
    }

    /// The descriptive message of this error as a `String`.
    pub fn message(&self) -> (r: String)
        ensures
            r@ == self.spec_message(),
    {
        match self {
            RteError::Parse(s) => s.clone(),
            RteError::Http { url, status, body } => {
                let mut s = String::from_str("API '");
                s.append(url.as_str());
                s.append("' returned error ");
                let code = u16_to_string(*status);
                s.append(code.as_str());
                s.append(": ");
                s.append(body.as_str());
                s
            },
            RteError::Encoding { path } => {
                let mut s = String::from_str("file '");
                s.append(path.as_str());
                s.append("' is not a UTF8 text file");
                s
            },
            RteError::Traversal { path } => {
                let mut s = String::from_str("invalid path '");
                s.append(path.as_str());
                s.append("' containing ..");
                s
            },
            RteError::TemplatePath { path, detail } => {
                let mut s = String::from_str("failed to render path '");
                s.append(path.as_str());
                s.append("': ");
                s.append(detail.as_str());
                s
            },
            RteError::Template { path, detail } => {
                let mut s = String::from_str("template execution for '");
                s.append(path.as_str());
                s.append("' failed: ");
                s.append(detail.as_str());
                s
            },
            RteError::TarDecode { detail } => {
                let mut s = String::from_str("invalid archive: ");
                s.append(detail.as_str());
                s
            },
            RteError::Unarchivable { path } => {
                let mut s = String::from_str("file '");
                s.append(path.as_str());
                s.append("' cannot be archived: its name or content does not fit a tar header");
                s
            },
        }
    }
}

} // verus!
