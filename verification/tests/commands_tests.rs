use msredis::commands::{CmdError, CmdGet, CmdSet};
use msredis::frame::Frame;

#[test]
fn test_from_frame() {
    let c = Frame::SimpleString("get".to_string());
    let k = Frame::SimpleString("key1".to_string());
    let vec = vec![c, k];
    let fm = Frame::Array(vec);
    let res = CmdGet::from_frame(fm);
    assert_eq!(res.is_ok(), true);
    assert_eq!(res.as_ref().unwrap().key.as_str(), "key1");
}

#[test]
fn test_from_frame_1() {
    let c = Frame::SimpleString("set".to_string());
    let k = Frame::SimpleString("key1".to_string());
    let v = Frame::SimpleString("msredis".to_string());
    let vec = vec![c, k, v];
    let fm = Frame::Array(vec);
    let res = CmdSet::from_frame(fm);
    assert_eq!(res.is_ok(), true);
    assert_eq!(res.as_ref().unwrap().key.as_str(), "key1");
    assert_eq!(res.as_ref().unwrap().val.as_str(), "msredis");
}

#[test]
fn test_from_frame_2() {
    let c = Frame::SimpleString("set".to_string());
    let k = Frame::SimpleString("key1".to_string());
    let v = Frame::SimpleString("msredis".to_string());
    let unit = Frame::SimpleString("NX".to_string());
    let t = Frame::SimpleString("20".to_string());
    let vec = vec![c, k, v, unit, t];
    let fm = Frame::Array(vec);
    let res = CmdSet::from_frame(fm);
    assert_eq!(res.is_ok(), true);
    assert_eq!(res.as_ref().unwrap().key.as_str(), "key1");
    assert_eq!(res.as_ref().unwrap().val.as_str(), "msredis");
    assert_eq!(res.as_ref().unwrap().ttl.is_some(), true);
    assert_eq!(res.as_ref().unwrap().ttl.unwrap(), 20u64 * 1000);
}

#[test]
fn test_set_px_option() {
    let fm = Frame::Array(vec![
        Frame::SimpleString("set".to_string()),
        Frame::SimpleString("k".to_string()),
        Frame::SimpleString("v".to_string()),
        Frame::SimpleString("PX".to_string()),
        Frame::SimpleString("750".to_string()),
    ]);
    let res = CmdSet::from_frame(fm).unwrap();
    assert_eq!(res.ttl, Some(750));
}

#[test]
fn test_set_bad_ttl() {
    let fm = Frame::Array(vec![
        Frame::SimpleString("set".to_string()),
        Frame::SimpleString("k".to_string()),
        Frame::SimpleString("v".to_string()),
        Frame::SimpleString("NX".to_string()),
        Frame::SimpleString("soon".to_string()),
    ]);
    assert!(CmdSet::from_frame(fm).is_err());
}

#[test]
fn test_set_trailing_option_word_ignored() {
    let fm = Frame::Array(vec![
        Frame::SimpleString("set".to_string()),
        Frame::SimpleString("k".to_string()),
        Frame::SimpleString("v".to_string()),
        Frame::SimpleString("NX".to_string()),
    ]);
    let res = CmdSet::from_frame(fm).unwrap();
    assert_eq!(res.ttl, None);
}

#[test]
fn test_set_wrong_argument_count() {
    let fm = Frame::Array(vec![
        Frame::SimpleString("set".to_string()),
        Frame::SimpleString("k".to_string()),
    ]);
    assert!(matches!(CmdSet::from_frame(fm), Err(CmdError::InvalidArguments)));
    let fm2 = Frame::Integer(1);
    assert!(matches!(CmdSet::from_frame(fm2), Err(CmdError::InvalidArguments)));
}

#[test]
fn test_get_wrong_argument_count() {
    let fm = Frame::Array(vec![Frame::SimpleString("get".to_string())]);
    assert!(CmdGet::from_frame(fm).is_err());
    let fm2 = Frame::Integer(3);
    assert!(CmdGet::from_frame(fm2).is_err());
}
