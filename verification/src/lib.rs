pub mod error;
pub mod github;
pub mod gitlab;
pub mod net;
pub mod sanitize;
pub mod strutil;
pub mod tar;
pub mod template;

pub use error::RteError;

use vstd::prelude::*;

verus! {

/// Splits a `KEY=VALUE` argument at the first `=`.
pub fn parse_key_value(s: &str) -> (r: Result<(String, String), String>)
    ensures
        match r {
            Ok(kv) => exists|i: int|
                0 <= i < s@.len() && s@[i] == '=' && (forall|j: int| 0 <= j < i ==> s@[j] != '=')
                    && kv.0@ == s@.subrange(0, i) && kv.1@ == s@.subrange(i + 1, s@.len() as int),
            Err(m) => (forall|i: int| 0 <= i < s@.len() ==> s@[i] != '=') && m@
                == "expected format: KEY=VALUE"@,
        },
{
    let n = s.unicode_len();
    let mut i: usize = 0;
    while i < n
        invariant
            n == s@.len(),
            0 <= i <= n,
            forall|j: int| 0 <= j < i ==> s@[j] != '=',
        decreases n - i,
    {
        if s.get_char(i) == '=' {
            let key = s.substring_char(0, i).to_owned();
            let value = s.substring_char(i + 1, n).to_owned();
            return Ok((key, value));
        }
        i = i + 1;
    }
    Err("expected format: KEY=VALUE".to_owned())

}

} // verus!
