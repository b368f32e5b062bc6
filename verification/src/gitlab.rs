use vstd::prelude::*;

use crate::error::RteError;
use crate::net::{ref_split, split_url, trim_leading_slashes, trim_slashes, url_encoded_of, url_parts_of};

verus! {

/// Parsed GitLab archive coordinate from a `gitlab://host/project-path[@ref]`
/// scheme URL. The project path may span subgroups.
#[derive(Debug)]
pub struct GitlabSource {
    pub host: String,
    pub project_path: String,
    pub git_ref: Option<String>,
}

/// What parsing a `gitlab://` URL yields: host, project path and optional
/// ref, or nothing when the URL is malformed. The optional `@ref` splits at
/// the last `@`; the project path may have any depth but not be empty.
pub open spec fn gl_parse_spec(s: Seq<char>) -> Option<(Seq<char>, Seq<char>, Option<Seq<char>>)> {
    match url_parts_of(s) {
        None => None,
        Some(hp) => {
            let path = trim_leading_slashes(hp.1);
            if path.len() == 0 {
                None
            } else {
                let pr = ref_split(path);
                Some((hp.0, pr.0, pr.1))
            }
        },
    }
}

impl GitlabSource {
    /// Parses a `gitlab://` scheme URL into an archive coordinate, or reports
    /// exactly why it is malformed.
    pub fn parse(source: &str) -> (r: Result<Self, RteError>)
        ensures
            match r {
                Ok(g) => gl_parse_spec(source@) matches Some(t) && g.host@ == t.0
                    && g.project_path@ == t.1 && (match (g.git_ref, t.2) {
                    (Some(gr), Some(tr)) => gr@ == tr,
                    (None, None) => true,
                    _ => false,
                }),
                Err(e) => gl_parse_spec(source@) is None && e matches RteError::Parse(_),
            },
    {
        let parts = match split_url(source) {
            Some(hp) => hp,
            None => {
                return Err(RteError::Parse("Invalid URL format".to_owned()));
            },
        };
        let host = parts.0;
        let path = trim_slashes(parts.1.as_str());
        if path.unicode_len() == 0 {
            return Err(RteError::Parse("Project path cannot be empty".to_owned()));
        }
        let pr = crate::net::split_at_last_at(path.as_str());
        Ok(GitlabSource { host, project_path: pr.0, git_ref: pr.1 })
    }

    /// Builds the archive API endpoint for this coordinate:
    /// `https://<host>/api/v4/projects/<encoded-path>/repository/archive.tar.gz[?sha=<encoded-ref>]`,
    /// with the project path percent-encoded as one path segment.
    pub fn archive_url(&self) -> (r: String)
        ensures
            r@ == "https://"@ + self.host@ + "/api/v4/projects/"@ + url_encoded_of(
                self.project_path@,
            ) + "/repository/archive.tar.gz"@ + (match self.git_ref {
                Some(g) => "?sha="@ + url_encoded_of(g@),
                None => Seq::<char>::empty(),
            }),
    {
        let mut url = String::from_str("https://");
        url.append(self.host.as_str());
        url.append("/api/v4/projects/");
        let encoded = crate::net::url_encode(self.project_path.as_str());
        url.append(encoded.as_str());
        url.append("/repository/archive.tar.gz");
        match &self.git_ref {
            Some(g) => {
                url.append("?sha=");
                let enc_ref = crate::net::url_encode(g.as_str());
                url.append(enc_ref.as_str());
            },
            None => {},
        }
        proof {
            assert(url@ =~= "https://"@ + self.host@ + "/api/v4/projects/"@ + url_encoded_of(
                self.project_path@,
            ) + "/repository/archive.tar.gz"@ + (match self.git_ref {
                Some(g) => "?sha="@ + url_encoded_of(g@),
                None => Seq::<char>::empty(),
            }));
        }
        url
    }
}

} // verus!
