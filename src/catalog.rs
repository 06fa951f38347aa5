use vstd::prelude::*;
use vstd::string::*;

verus! {

/// A downloadable file of a subtitle release.
#[derive(Debug)]
pub struct File {
    pub file_id: i32,
    pub cd_number: i32,
    pub file_name: String,
}

/// One entry of the remote catalog: a subtitle release and its files.
#[derive(Debug)]
pub struct SearchCandidate {
    pub release: String,
    pub language: String,
    pub download_count: i32,
    pub files: Vec<File>,
}

/// A subtitle language known to the catalog.
#[derive(Debug)]
pub struct Language {
    pub id: String,
    pub name: String,
    pub iso: String,
}

/// The person who uploaded a subtitle.
#[derive(Debug)]
pub struct Uploader {
    pub uploader_id: Option<i32>,
    pub name: String,
    pub rank: String,
}

/// The movie or episode a subtitle belongs to.
#[derive(Debug)]
pub struct FeatureDetails {
    pub feature_id: i32,
    pub feature_type: String,
    pub year: i32,
    pub title: String,
    pub movie_name: String,
    pub imdb_id: i32,
    pub tmdb_id: Option<i32>,
    pub season_number: i32,
    pub episode_number: i32,
    pub parent_imdb_id: i32,
    pub parent_title: String,
    pub parent_tmdb_id: Option<i32>,
    pub parent_feature_id: i32,
}

/// A link related to a subtitle.
#[derive(Debug)]
pub struct RelatedLink {
    pub label: String,
    pub url: String,
    pub img_url: Option<String>,
}

/// The catalog's answer to a download request.
#[derive(Debug)]
pub struct DownloadPayload {
    pub link: String,
    pub requests: i32,
    pub remaining: i32,
}

/// A download request for one file.
#[derive(Debug, PartialEq, Eq, Structural)]
pub struct DownloadRequestPayload {
    pub file_id: i32,
}

impl DownloadRequestPayload {
    /// The request for the file `file_id`.
    pub fn new(file_id: i32) -> (r: DownloadRequestPayload)
        ensures
            r.file_id == file_id,
    {
        DownloadRequestPayload { file_id }
    }
}

/// Whether an API key was configured: any non-empty key counts.
pub fn is_env_var_set(api_key: &str) -> (r: bool)
    ensures
        r == (api_key@.len() > 0),
{
    !api_key.is_empty()
}

/// The percent-encoding of a string.
pub uninterp spec fn url_encoded(s: Seq<char>) -> Seq<char>;

/// Relies on `urlencoding::encode`: percent-encodes every byte of the string's UTF-8 form
/// except ASCII alphanumerics and `-`, `_`, `.`, `~`; the empty string stays empty.
#[verifier::external_body]
fn url_encode(s: &str) -> (r: String)
    ensures
        r@ == url_encoded(s@),
        s@.len() == 0 ==> r@.len() == 0,
{
    urlencoding::encode(s).into_owned()
}

/// The address of the catalog's subtitle search.
pub open spec fn search_base() -> Seq<char> {
    "https://api.opensubtitles.com/api/v1/subtitles?languages="@
}

/// The search address for `query` in `language` (empty for every language).
pub open spec fn search_url_spec(query: Seq<char>, language: Seq<char>) -> Seq<char> {
    search_base() + url_encoded(language) + "&query="@ + url_encoded(query)
}

/// The search address for a free-text query, optionally restricted to one language.
pub fn search_url(query: &str, language: Option<&str>) -> (r: String)
    ensures
        r@ == search_url_spec(
            query@,
            match language {
                Some(l) => l@,
                None => Seq::empty(),
            },
        ),
{
    let lang = match language {
        Some(l) => url_encode(l),
        None => {
            proof {
                reveal_strlit("");
                assert(""@ =~= Seq::<char>::empty());
            }
            url_encode("")
        },
    };
    let q = url_encode(query);
    let mut url = String::from_str("https://api.opensubtitles.com/api/v1/subtitles?languages=");
    url.append(lang.as_str());
    url.append("&query=");
    url.append(q.as_str());
    proof {
        reveal_strlit("https://api.opensubtitles.com/api/v1/subtitles?languages=");
        reveal_strlit("&query=");
    }
    url
}

} // verus!
