use ceridwen::error::CeridwenError;
use ceridwen::web_client::check_status;
use ceridwen::web_client::Download;
use ceridwen::web_client::USER_AGENT;

#[test]
fn user_agent_of_the_crawler() {
    assert_eq!(USER_AGENT, "ceridwen-crawler");
}

#[test]
fn status_of_success() {
    assert!(check_status(200, "https://e/").is_ok());
    assert!(check_status(204, "https://e/").is_ok());
    assert!(check_status(299, "https://e/").is_ok());
}

#[test]
fn status_not_found() {
    match check_status(404, "https://e/missing") {
        Err(CeridwenError::PageNotFound(url)) => assert_eq!(url, "https://e/missing"),
        other => panic!("{:?}", other),
    }
}

#[test]
fn status_of_other_errors() {
    for status in [100u16, 199, 300, 301, 403, 500, 503] {
        match check_status(status, "https://e/") {
            Err(CeridwenError::Request(code)) => assert_eq!(code, status),
            other => panic!("{:?}", other),
        }
    }
}

#[test]
fn download_reports_every_percent() {
    let mut download = Download::new(Some(1000));
    assert_eq!(download.record_chunk("/tmp/f", 10, 10).unwrap(), false);
    assert_eq!(download.downloaded, 10);
    assert_eq!(download.reported, 0);
    assert_eq!(download.record_chunk("/tmp/f", 1, 1).unwrap(), true);
    assert_eq!(download.downloaded, 11);
    assert_eq!(download.reported, 11);
    assert_eq!(download.record_chunk("/tmp/f", 10, 10).unwrap(), false);
    assert_eq!(download.record_chunk("/tmp/f", 5, 5).unwrap(), true);
    assert_eq!(download.reported, 26);
}

#[test]
fn download_of_unknown_length_reports_every_hundred_megabytes() {
    let mut download = Download::new(None);
    assert_eq!(download.record_chunk("/tmp/f", 100_000_000, 100_000_000).unwrap(), false);
    assert_eq!(download.record_chunk("/tmp/f", 1, 1).unwrap(), true);
    assert_eq!(download.reported, 100_000_001);
}

#[test]
fn download_refuses_a_short_write() {
    let mut download = Download::new(None);
    download.record_chunk("/tmp/f", 100, 100).unwrap();
    match download.record_chunk("/tmp/f", 50, 20) {
        Err(CeridwenError::IncompleteWrite(path, at)) => {
            assert_eq!(path, "/tmp/f");
            assert_eq!(at, 120);
        },
        other => panic!("{:?}", other),
    }
    assert_eq!(download.downloaded, 100);
}
