use fio::io_uring::Res;
use fio::text::is_white_space;
use fio::{get_somaxconn, FeatureError, Features, HttpServer, Mode};

fn features(bits: u8) -> Features {
    Features {
        work_stealing: bits & 1 != 0,
        share_nothing: bits & 2 != 0,
        io_uring_registry: bits & 4 != 0,
        io_uring_pool: bits & 8 != 0,
    }
}

#[test]
fn server_starts_in_the_enabled_mode() {
    let modes = [Mode::WorkStealing, Mode::ShareNothing, Mode::IoUringRegistry, Mode::IoUringPool];
    for (i, mode) in modes.iter().enumerate() {
        let launch = HttpServer("service").start("0.0.0.0:8080", features(1 << i)).ok().unwrap();
        assert_eq!(launch.mode, *mode);
        assert_eq!(launch.service, "service");
        assert_eq!(launch.addr, "0.0.0.0:8080");
    }
}

#[test]
fn exactly_one_mode_may_be_enabled() {
    for bits in 0u8..16 {
        let expected = match bits.count_ones() {
            0 => Some(FeatureError::Missing),
            1 => None,
            _ => Some(FeatureError::Several),
        };
        assert_eq!(features(bits).mode().err(), expected);
        assert_eq!(HttpServer(()).start("a", features(bits)).err(), expected);
    }
}

#[test]
fn feature_errors_have_words() {
    assert_eq!(
        FeatureError::Several.message(),
        "Only one of the features `work_stealing`, `share_nothing`, `io_uring_registry`, or `io_uring_pool` may be enabled at a time."
    );
    assert_eq!(
        FeatureError::Missing.message(),
        "You must enable exactly one of the features: `work_stealing`, `share_nothing`, `io_uring_registry`, or `io_uring_pool`."
    );
}

#[test]
fn accept_queue_length_is_the_first_number() {
    assert_eq!(get_somaxconn(true, b"net.core.somaxconn = 128\n"), 128);
    assert_eq!(get_somaxconn(true, b"net.core.somaxconn = +4294967295\n"), 4294967295);
    assert_eq!(get_somaxconn(true, b"x 4294967296 7 8"), 7);
    assert_eq!(get_somaxconn(true, "a\u{3000}0012\u{85}b".as_bytes()), 12);
    assert_eq!(get_somaxconn(true, b"=\xff= 5"), 5);
    assert_eq!(get_somaxconn(true, b"\xff5 6"), 6);
}

#[test]
fn accept_queue_length_has_a_default() {
    assert_eq!(get_somaxconn(false, b"net.core.somaxconn = 128\n"), 4096);
    assert_eq!(get_somaxconn(true, b""), 4096);
    assert_eq!(get_somaxconn(true, b"net.core.somaxconn=128"), 4096);
    assert_eq!(get_somaxconn(true, b"+ -1 1.5 0x10 1_0"), 4096);
}

#[test]
fn white_space_is_that_of_unicode() {
    for code in 0u32..=0x10ffff {
        if let Some(c) = char::from_u32(code) {
            assert_eq!(is_white_space(c), c.is_whitespace(), "{:x}", code);
        }
    }
}

#[test]
fn ready_made_responses() {
    let res = Res::ok("hello");
    assert_eq!((res.status_code, res.content_type, res.body), (200, "text/plain", "hello"));
    assert!(res.headers.is_empty());
    let res = Res::not_found();
    assert_eq!((res.status_code, res.content_type, res.body), (404, "text/plain", "Not Found"));
    assert!(res.headers.is_empty());
}
