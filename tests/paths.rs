use subtle::catalog::{is_env_var_set, search_url, DownloadRequestPayload};
use subtle::paths::{get_basename, output_file_name, served_file_name};

#[test]
fn basename_is_parent_directory() {
    assert_eq!(get_basename("/movies/a/film.mkv").unwrap(), "/movies/a");
    assert_eq!(get_basename("film.mkv").unwrap(), "./");
    assert_eq!(get_basename("").unwrap(), "./");
    assert_eq!(get_basename("/").unwrap(), "./");
}

#[test]
fn served_name_defaults_to_archive() {
    assert_eq!(served_file_name(None), "sub.zip");
    assert_eq!(served_file_name(Some(String::new())), "sub.zip");
    assert_eq!(served_file_name(Some("x.srt".to_string())), "x.srt");
}

#[test]
fn output_name_uses_media_stem_and_served_extension() {
    assert_eq!(output_file_name("abc.srt", "/m/Film.2020.mkv"), Some("Film.2020.srt".to_string()));
    assert_eq!(output_file_name("abc", "Film.mkv"), Some("Film.str".to_string()));
    assert_eq!(output_file_name("sub.zip", ""), Some("sub.zip.zip".to_string()));
    assert_eq!(output_file_name("abc.srt", "/"), None);
}

#[test]
fn api_key_must_be_non_empty() {
    assert!(!is_env_var_set(""));
    assert!(is_env_var_set("SECRET-REDACTED"));
}

#[test]
fn search_url_encodes_query_and_language() {
    assert_eq!(
        search_url("Some Movie&1", Some("en")),
        "https://api.opensubtitles.com/api/v1/subtitles?languages=en&query=Some%20Movie%261"
    );
    assert_eq!(
        search_url("a.b-c", None),
        "https://api.opensubtitles.com/api/v1/subtitles?languages=&query=a.b-c"
    );
}

#[test]
fn download_request_names_file() {
    assert_eq!(DownloadRequestPayload::new(9).file_id, 9);
}
