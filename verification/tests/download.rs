//! Downloads that go on where they broke off.
use icehorn::copy::file::{
    backoff, give_up_message, Download, DownloadEvent, DownloadPhase, DownloadStep,
    MAX_DOWNLOAD_ATTEMPTS,
};
use icehorn::time::Span;

/// What one request gives.
enum Reply {
    Stream(Vec<Result<&'static [u8], Fault>>),
    Refused,
    Missing,
}

/// What may go wrong with an open stream.
enum Fault {
    Reset,
    Gone,
}

struct Run {
    bytes: Option<Vec<u8>>,
    missing: bool,
    message: Option<String>,
    offsets: Vec<u64>,
    delays: Vec<u128>,
    progress: Vec<u64>,
}

/// Runs a download whose requests are answered by `reply`.
fn run(reply: impl Fn(usize, u64) -> Reply) -> Run {
    let (mut download, mut step) = Download::start();
    let mut out = Run {
        bytes: None,
        missing: false,
        message: None,
        offsets: Vec::new(),
        delays: Vec::new(),
        progress: Vec::new(),
    };
    let mut pieces: Vec<Result<&'static [u8], Fault>> = Vec::new();
    loop {
        step = match step {
            DownloadStep::Open { offset, delay } => {
                let n = out.offsets.len();
                out.offsets.push(offset);
                if let Some(d) = delay {
                    out.delays.push(d.as_millis());
                }
                match reply(n, offset) {
                    Reply::Stream(mut p) => {
                        p.reverse();
                        pieces = p;
                        download.advance(DownloadEvent::Opened)
                    }
                    Reply::Refused => download.advance(DownloadEvent::OpenFailed),
                    Reply::Missing => download.advance(DownloadEvent::NotFound),
                }
            }
            DownloadStep::Read { received } => {
                if received > out.progress.last().copied().unwrap_or(0) {
                    out.progress.push(received);
                }
                match pieces.pop() {
                    Some(Ok(piece)) => download.advance(DownloadEvent::Chunk(piece.to_vec())),
                    Some(Err(Fault::Reset)) => download.advance(DownloadEvent::Broken),
                    Some(Err(Fault::Gone)) => download.advance(DownloadEvent::NotFound),
                    None => download.advance(DownloadEvent::Ended),
                }
            }
            DownloadStep::Finish => {
                assert_eq!(download.phase(), DownloadPhase::Over);
                out.bytes = Some(download.into_bytes());
                return out;
            }
            DownloadStep::ReportMissing => {
                out.missing = true;
                return out;
            }
            DownloadStep::GiveUp { received } => {
                out.message = Some(give_up_message(received));
                return out;
            }
        };
    }
}

#[test]
fn returns_full_bytes_on_first_try() {
    let got = run(|_, offset| {
        assert_eq!(offset, 0);
        Reply::Stream(vec![Ok(b"hello "), Ok(b"world")])
    });
    assert_eq!(&got.bytes.unwrap()[..], b"hello world");
    assert_eq!(got.offsets.len(), 1);
}

#[test]
fn resumes_from_received_offset_after_stream_error() {
    let got = run(|n, offset| match n {
        0 => {
            assert_eq!(offset, 0);
            Reply::Stream(vec![Ok(b"hello "), Err(Fault::Reset)])
        }
        1 => {
            assert_eq!(offset, 6);
            Reply::Stream(vec![Ok(b"world")])
        }
        _ => panic!("unexpected attempt {n}"),
    });
    assert_eq!(&got.bytes.unwrap()[..], b"hello world");
    assert_eq!(got.offsets.len(), 2);
}

#[test]
fn gives_up_after_max_attempts() {
    let got = run(|_, _| Reply::Stream(vec![Err(Fault::Reset)]));
    assert!(got.bytes.is_none());
    assert!(!got.missing);
    assert!(got.message.unwrap().contains("download failed"));
    assert_eq!(got.offsets.len(), MAX_DOWNLOAD_ATTEMPTS as usize);
    assert_eq!(got.delays.len(), MAX_DOWNLOAD_ATTEMPTS as usize - 1);
    assert_eq!(got.delays[0], 500);
    assert_eq!(got.delays[1], 1000);
}

#[test]
fn not_found_is_not_retried() {
    let got = run(|_, _| Reply::Missing);
    assert!(got.missing);
    assert!(got.bytes.is_none());
    assert_eq!(got.offsets.len(), 1);
}

#[test]
fn not_found_in_the_stream_is_not_retried() {
    let got = run(|_, _| Reply::Stream(vec![Ok(b"hello "), Err(Fault::Gone)]));
    assert!(got.missing);
    assert!(got.bytes.is_none());
    assert_eq!(got.offsets, vec![0]);
}

#[test]
fn report_of_a_download_that_was_given_up() {
    assert_eq!(
        give_up_message(1234),
        format!("download failed after {MAX_DOWNLOAD_ATTEMPTS} attempts at byte 1234")
    );
}

#[test]
fn retries_when_opening_stream_fails() {
    let got = run(|n, offset| {
        if n == 0 {
            assert_eq!(offset, 0);
            Reply::Refused
        } else {
            Reply::Stream(vec![Ok(b"ok")])
        }
    });
    assert_eq!(&got.bytes.unwrap()[..], b"ok");
    assert_eq!(got.offsets.len(), 2);
}

#[test]
fn progress_is_cumulative_across_resumes() {
    let got = run(|n, offset| match n {
        0 => {
            assert_eq!(offset, 0);
            Reply::Stream(vec![Ok(b"abc"), Err(Fault::Reset)])
        }
        1 => {
            assert_eq!(offset, 3);
            Reply::Stream(vec![Ok(b"de")])
        }
        _ => panic!("unexpected attempt {n}"),
    });
    assert_eq!(got.progress, vec![3, 5]);
}

#[test]
fn delays_double_up_to_a_limit() {
    let millis: Vec<u128> = (1..16).map(|i| backoff(i).as_millis()).collect();
    assert_eq!(millis[..6], [500, 1000, 2000, 4000, 8000, 8000]);
    assert!(millis[5..].iter().all(|m| *m == 8000));
    assert_eq!(backoff(u32::MAX), backoff(5));
    assert_eq!(backoff(0), Span::from_millis(500));
}
