use vstd::prelude::*;

use crate::error::RteError;
use crate::net::{ref_split, split_url, trim_leading_slashes, trim_slashes, url_parts_of};
use crate::strutil::{split_on, split_str};

verus! {

/// Parsed GitHub archive coordinate from a `github://host/owner/repo[@ref]`
/// scheme URL.
#[derive(Debug)]
pub struct GitHubSource {
    pub host: String,
    pub owner: String,
    pub repo: String,
    pub git_ref: Option<String>,
}

/// What parsing a `github://` URL yields: host, owner, repo and optional ref,
/// or nothing when the URL is malformed. The scheme prefix is replaced by
/// `https://` before the URL is parsed; the optional `@ref` splits at the
/// last `@`; the path must then be exactly `owner/repo`.
pub open spec fn gh_parse_spec(s: Seq<char>) -> Option<(Seq<char>, Seq<char>, Seq<char>, Option<
    Seq<char>,
>)> {
    if !"github://"@.is_prefix_of(s) {
        None
    } else {
        match url_parts_of("https://"@ + s.skip("github://"@.len() as int)) {
            None => None,
            Some(hp) => {
                let path = trim_leading_slashes(hp.1);
                if path.len() == 0 {
                    None
                } else {
                    let pr = ref_split(path);
                    let parts = split_on(pr.0, '/');
                    if parts.len() != 2 {
                        None
                    } else {
                        Some((hp.0, parts[0], parts[1], pr.1))
                    }
                }
            },
        }
    }
}

impl GitHubSource {
    /// Parses a `github://` scheme URL into an archive coordinate, or reports
    /// exactly why it is malformed.
    pub fn parse(source: &str) -> (r: Result<Self, RteError>)
        ensures
            match r {
                Ok(g) => gh_parse_spec(source@) matches Some(t) && g.host@ == t.0 && g.owner@
                    == t.1 && g.repo@ == t.2 && (match (g.git_ref, t.3) {
                    (Some(gr), Some(tr)) => gr@ == tr,
                    (None, None) => true,
                    _ => false,
                }),
                Err(e) => gh_parse_spec(source@) is None && e matches RteError::Parse(_),
            },
    {
        if !crate::strutil::has_prefix(source, "github://") {
            return Err(RteError::Parse("URL must start with github://".to_owned()));
        }
        let n = source.unicode_len();
        proof {
            reveal_strlit("github://");
            assert("github://"@.len() == 9);
        }
        let rest = source.substring_char(9, n);
        let mut https_url = String::from_str("https://");
        https_url.append(rest);
        proof {
            assert(source@.subrange(9, n as int) =~= source@.skip(9));
        }
        let parts = match split_url(https_url.as_str()) {
            Some(hp) => hp,
            None => {
                return Err(RteError::Parse("Invalid URL format".to_owned()));
            },
        };
        let host = parts.0;
        let path = trim_slashes(parts.1.as_str());
        if path.unicode_len() == 0 {
            return Err(RteError::Parse("Project path cannot be empty".to_owned()));
        }
        let pr = crate::net::split_at_last_at(path.as_str());
        let segs = split_str(pr.0.as_str(), '/');
        if segs.len() != 2 {
            let mut msg = String::from_str("GitHub path must be owner/repo, got: ");
            msg.append(pr.0.as_str());
            return Err(RteError::Parse(msg));
        }
        let owner = segs[0].clone();
        let repo = segs[1].clone();
        proof {
            let ss = segs@.map_values(|t: String| t@);
            assert(ss[0] == owner@);
            assert(ss[1] == repo@);
        }
        Ok(GitHubSource { host, owner, repo, git_ref: pr.1 })
    }

    /// Builds the archive API endpoint for this coordinate:
    /// `https://api.<host>/repos/<owner>/<repo>/tarball[/<ref>]`.
    pub fn archive_url(&self) -> (r: String)
        ensures
            r@ == "https://api."@ + self.host@ + "/repos/"@ + self.owner@ + "/"@ + self.repo@
                + "/tarball"@ + (match self.git_ref {
                Some(g) => "/"@ + g@,
                None => Seq::<char>::empty(),
            }),
    {
        let mut url = String::from_str("https://api.");
        url.append(self.host.as_str());
        url.append("/repos/");
        url.append(self.owner.as_str());
        url.append("/");
        url.append(self.repo.as_str());
        url.append("/tarball");
        match &self.git_ref {
            Some(g) => {
                url.append("/");
                url.append(g.as_str());
            },
            None => {},
        }
        proof {
            assert(url@ =~= "https://api."@ + self.host@ + "/repos/"@ + self.owner@ + "/"@
                + self.repo@ + "/tarball"@ + (match self.git_ref {
                Some(g) => "/"@ + g@,
                None => Seq::<char>::empty(),
            }));
        }
        url
    }
}

} // verus!
