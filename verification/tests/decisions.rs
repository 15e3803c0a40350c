use galahad2lcd::config::config_file_contents;
use galahad2lcd::demux::keep_stream_packets;
use galahad2lcd::device::{needs_kernel_detach, select_device, DeviceChoice, PRODUCT_ID, VENDOR_ID};
use galahad2lcd::encode::{advance_pts, needs_new_scaler, select_frame_rate, x264_params};
use galahad2lcd::playback::{frame_wait, Player, PlayerAction};
use galahad2lcd::text::{push_decimal, push_signed_decimal};

fn decimal(n: u32) -> String {
    let mut out = Vec::new();
    push_decimal(&mut out, n);
    String::from_utf8(out).unwrap()
}

fn signed(n: i32) -> String {
    let mut out = Vec::new();
    push_signed_decimal(&mut out, n);
    String::from_utf8(out).unwrap()
}

#[test]
fn decimal_text() {
    assert_eq!(decimal(0), "0");
    assert_eq!(decimal(7), "7");
    assert_eq!(decimal(10), "10");
    assert_eq!(decimal(30), "30");
    assert_eq!(decimal(u32::MAX), "4294967295");
    assert_eq!(signed(0), "0");
    assert_eq!(signed(-90), "-90");
    assert_eq!(signed(270), "270");
    assert_eq!(signed(i32::MIN), "-2147483648");
    assert_eq!(signed(i32::MAX), "2147483647");
}

#[test]
fn configuration_line() {
    let line = config_file_contents("/home/user/Pictures/frieren.gif", 90);
    assert_eq!(
        String::from_utf8(line).unwrap(),
        "MYAPP_ARGS=\"--input /home/user/Pictures/frieren.gif --rotate 90\""
    );
    let line = config_file_contents("/tmp/a b.mp4", -90);
    assert_eq!(String::from_utf8(line).unwrap(), "MYAPP_ARGS=\"--input /tmp/a b.mp4 --rotate -90\"");
}

#[test]
fn encoder_options() {
    assert_eq!(
        String::from_utf8(x264_params(30)).unwrap(),
        "nal-hrd=cbr:vbv-maxrate=2000:vbv-bufsize=2000:annexb=1:open-gop=0:scenecut=0:keyint=30:min-keyint=30"
    );
    assert_eq!(
        String::from_utf8(x264_params(0)).unwrap(),
        "nal-hrd=cbr:vbv-maxrate=2000:vbv-bufsize=2000:annexb=1:open-gop=0:scenecut=0:keyint=0:min-keyint=0"
    );
}

#[test]
fn frame_rate_choice() {
    assert_eq!(select_frame_rate((30000, 1001), (25, 1)), Some((30000, 1001)));
    assert_eq!(select_frame_rate((0, 0), (25, 1)), Some((25, 1)));
    assert_eq!(select_frame_rate((0, 0), (0, 0)), None);
    assert_eq!(select_frame_rate((0, 1), (25, 1)), Some((0, 1)));
}

#[test]
fn scaler_reuse() {
    assert!(needs_new_scaler(None, 480, 480));
    assert!(!needs_new_scaler(Some((480, 270)), 480, 270));
    assert!(needs_new_scaler(Some((480, 270)), 270, 480));
    assert!(needs_new_scaler(Some((480, 270)), 480, 271));
}

#[test]
fn timestamps_advance_by_the_frame_delay() {
    let mut pts = 0i64;
    for _ in 0..3 {
        pts = advance_pts(pts, 33);
    }
    assert_eq!(pts, 99);
}

#[test]
fn device_search_takes_the_first_match() {
    let ids = vec![Some((0x1d6b, 0x0002)), Some((VENDOR_ID, PRODUCT_ID)), Some((VENDOR_ID, PRODUCT_ID))];
    assert_eq!(select_device(&ids, VENDOR_ID, PRODUCT_ID), DeviceChoice::Found(1));
}

#[test]
fn device_search_stops_at_an_unreadable_descriptor() {
    let ids = vec![Some((0x1d6b, 0x0002)), None, Some((VENDOR_ID, PRODUCT_ID))];
    assert_eq!(select_device(&ids, VENDOR_ID, PRODUCT_ID), DeviceChoice::DescriptorFailed(1));
    let ids = vec![Some((VENDOR_ID, PRODUCT_ID)), None];
    assert_eq!(select_device(&ids, VENDOR_ID, PRODUCT_ID), DeviceChoice::Found(0));
}

#[test]
fn device_search_without_the_panel() {
    assert_eq!(select_device(&vec![], VENDOR_ID, PRODUCT_ID), DeviceChoice::NotFound);
    let ids = vec![Some((VENDOR_ID, 0x0001)), Some((0x0001, PRODUCT_ID))];
    assert_eq!(select_device(&ids, VENDOR_ID, PRODUCT_ID), DeviceChoice::NotFound);
}

#[test]
fn kernel_driver_detach() {
    assert!(needs_kernel_detach(Some(true)));
    assert!(!needs_kernel_detach(Some(false)));
    assert!(!needs_kernel_detach(None));
}

#[test]
fn player_loops_over_the_buffer() {
    let mut player = Player::new(3);
    let sent: Vec<PlayerAction> = (0..7).map(|_| player.step(true)).collect();
    assert_eq!(
        sent,
        vec![
            PlayerAction::Send(0),
            PlayerAction::Send(1),
            PlayerAction::Send(2),
            PlayerAction::Send(0),
            PlayerAction::Send(1),
            PlayerAction::Send(2),
            PlayerAction::Send(0),
        ]
    );
    assert_eq!(player.step(false), PlayerAction::Stop);
    assert_eq!(player.step(true), PlayerAction::Send(1));
}

#[test]
fn player_without_packets_idles_until_stopped() {
    let mut player = Player::new(0);
    assert_eq!(player.step(true), PlayerAction::Idle);
    assert_eq!(player.step(true), PlayerAction::Idle);
    assert_eq!(player.step(false), PlayerAction::Stop);
}

#[test]
fn waiting_between_frames() {
    assert_eq!(frame_wait(33_333_333, 1_000_000), Some(32_333_333));
    assert_eq!(frame_wait(33_333_333, 33_333_333), None);
    assert_eq!(frame_wait(33_333_333, 40_000_000), None);
}

#[test]
fn only_video_packets_with_data_are_kept() {
    let packets = vec![
        (0usize, Some(vec![1u8, 2])),
        (1usize, Some(vec![9u8])),
        (0usize, None),
        (0usize, Some(vec![3u8])),
    ];
    assert_eq!(keep_stream_packets(&packets, 0), vec![vec![1u8, 2], vec![3u8]]);
    assert_eq!(keep_stream_packets(&packets, 1), vec![vec![9u8]]);
    assert!(keep_stream_packets(&packets, 2).is_empty());
}
