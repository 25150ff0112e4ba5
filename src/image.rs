//! Resolution of an image URL to a file under the image directory.
use vstd::prelude::*;

use crate::text::{chars_of, join_path, join_path_string};

verus! {

/// The path of the URL that `url::Url::parse` makes of `s`; nothing when `s`
/// is no valid absolute URL.
pub uninterp spec fn parsed_url_path(s: Seq<char>) -> Option<Seq<char>>;

/// Relies on `url::Url::parse` and `url::Url::path`: the serialized path of
/// the parsed URL, `None` when parsing fails.
#[verifier::external_body]
fn url_path(s: &str) -> (r: Option<String>)
    ensures
        match r {
            Some(p) => parsed_url_path(s@) == Some(p@),
            None => parsed_url_path(s@) is None,
        },
{
    match url::Url::parse(s) {
        Ok(u) => Some(u.path().to_string()),
        Err(_) => None,
    }
}

/// The index of the last `'/'` in `p`, or -1 when there is none.
pub open spec fn last_slash(p: Seq<char>) -> int
    decreases p.len(),
{
    if p.len() == 0 {
        -1
    } else if p.last() == '/' {
        p.len() - 1
    } else {
        last_slash(p.drop_last())
    }
}

/// The last of the `'/'`-separated segments of a URL path: nothing when the
/// path does not start with `'/'` (a URL that cannot be a base has none).
pub open spec fn last_segment(path: Seq<char>) -> Option<Seq<char>> {
    if path.len() > 0 && path[0] == '/' {
        Some(path.subrange(last_slash(path) + 1, path.len() as int))
    } else {
        None
    }
}

/// The file name that an image URL names: its last path segment, when there
/// is one and it is not empty.
pub open spec fn image_name(url: Seq<char>) -> Option<Seq<char>> {
    match parsed_url_path(url) {
        Some(p) => match last_segment(p) {
            Some(n) => if n.len() > 0 {
                Some(n)
            } else {
                None
            },
            None => None,
        },
        None => None,
    }
}

/// Why an image could not be resolved to a file.
#[derive(Clone, Copy, Debug, PartialEq, Eq, Structural)]
pub enum DeltaPdfError {
    /// The image URL names no file.
    ImageUrlError,
    /// An image was met but no image directory was set.
    ImagePathNotSet,
}

impl DeltaPdfError {
    /// A sentence that describes the error.
    pub fn message(&self) -> (r: &'static str)
        ensures
            r@ == match self {
                DeltaPdfError::ImageUrlError => "The image url could not be parsed"@,
                DeltaPdfError::ImagePathNotSet =>
                    "Parsed Delta had an image but the image directory is not set."@,
            },
    {
        match self {
            DeltaPdfError::ImageUrlError => {
                proof {
                    reveal_strlit("The image url could not be parsed");
                }
                "The image url could not be parsed"
            },
            DeltaPdfError::ImagePathNotSet => {
                proof {
                    reveal_strlit("Parsed Delta had an image but the image directory is not set.");
                }
                "Parsed Delta had an image but the image directory is not set."
            },
        }
    }
}

/// The file that an image URL resolves to under the directory `dir`.
pub open spec fn resolve(url: Seq<char>, dir: Option<Seq<char>>) -> Result<
    Seq<char>,
    DeltaPdfError,
> {
    match image_name(url) {
        None => Err(DeltaPdfError::ImageUrlError),
        Some(name) => match dir {
            None => Err(DeltaPdfError::ImagePathNotSet),
            Some(d) => Ok(join_path(d, name)),
        },
    }
}

/// The view of an optional directory.
pub open spec fn dir_view(dir: Option<String>) -> Option<Seq<char>> {
    match dir {
        Some(d) => Some(d@),
        None => None,
    }
}

proof fn lemma_last_slash_prefix(p: Seq<char>, i: int)
    requires
        0 <= i <= p.len(),
        forall|k: int| i <= k < p.len() ==> p[k] != '/',
    ensures
        last_slash(p) == last_slash(p.subrange(0, i)),
    decreases p.len() - i,
{
    if i < p.len() {
        assert(p.drop_last() =~= p.subrange(0, p.len() - 1));
        lemma_last_slash_prefix(p.drop_last(), i);
        assert(p.drop_last().subrange(0, i) =~= p.subrange(0, i));
    } else {
        assert(p.subrange(0, i) =~= p);
    }
}

/// The last segment of a URL path.
fn path_last_segment(path: &str) -> (r: Option<String>)
    ensures
        match r {
            Some(s) => last_segment(path@) == Some(s@),
            None => last_segment(path@) is None,
        },
{
    let c = chars_of(path);
    let n = c.len();
    if n == 0 || c[0] != '/' {
        return None;
    }
    let mut i: usize = n;
    while i > 0 && c[i - 1] != '/'
        invariant
            c@ == path@,
            n == c@.len(),
            0 <= i <= n,
            c@[0] == '/',
            forall|k: int| i <= k < n ==> c@[k] != '/',
        decreases i,
    {
        i = i - 1;
    }
    proof {
        lemma_last_slash_prefix(path@, i as int);
        let q = path@.subrange(0, i as int);
        assert(i > 0);
        assert(q.last() == '/');
    }
    let seg = path.substring_char(i, n);
    Some(String::from_str(seg))
}

/// The file that the image URL `url` names, under the directory `dir`.
pub fn resolve_image(url: &str, dir: &Option<String>) -> (r: Result<String, DeltaPdfError>)
    ensures
        match r {
            Ok(p) => resolve(url@, dir_view(*dir)) == Ok::<Seq<char>, DeltaPdfError>(p@),
            Err(e) => resolve(url@, dir_view(*dir)) == Err::<Seq<char>, DeltaPdfError>(e),
        },
{
    let name = match url_path(url) {
        Some(p) => match path_last_segment(p.as_str()) {
            Some(n) => n,
            None => return Err(DeltaPdfError::ImageUrlError),
        },
        None => return Err(DeltaPdfError::ImageUrlError),
    };
    if name.unicode_len() == 0 {
        return Err(DeltaPdfError::ImageUrlError);
    }
    match dir {
        Some(d) => Ok(join_path_string(d.as_str(), name.as_str())),
        None => Err(DeltaPdfError::ImagePathNotSet),
    }
}

} // verus!
