use std::collections::hash_map::DefaultHasher;
use std::hash::{Hash, Hasher};

use simple_profiler::pre_hashed::PreHashedStr;
use simple_profiler::profiler::{
    Event, Frames, FunctionCall, Operation, Profiler, ProfilerError, INITIAL_CAPACITY,
};
use simple_profiler::serialization::{StaticStr, StaticStrVisitor};
use simple_profiler::wire::encode_frames;

fn call(name: &'static str, timestamp: u128) -> Event {
    Event { op: Operation::Call(StaticStr(name)), timestamp }
}

fn ret(timestamp: u128) -> Event {
    Event { op: Operation::Return, timestamp }
}

/// The events as plain values: a call is `Ok` of its name, a return `Err`.
fn plain(frames: &Frames) -> Vec<Vec<(Result<&'static str, ()>, u128)>> {
    frames
        .0
        .iter()
        .map(|frame| {
            frame
                .calls
                .iter()
                .map(|event| match event.op {
                    Operation::Call(name) => (Ok(name.as_str()), event.timestamp),
                    Operation::Return => (Err(()), event.timestamp),
                })
                .collect()
        })
        .collect()
}

fn sample() -> Profiler {
    let mut profiler = Profiler::default();
    profiler.call_at("main", 0);
    profiler.call_at("parse", 127);
    profiler.ret_at(128);
    profiler.call_at("r\u{e9}sum\u{e9}", 16_384);
    profiler.ret_at(u64::MAX as u128 + 1);
    profiler.ret_at(u128::MAX);
    profiler.end_frame();
    profiler.end_frame();
    profiler.call_at("parse", 300);
    profiler.ret_at(301);
    profiler
}

fn same_storage(a: &str, b: &str) -> bool {
    std::ptr::eq(a.as_ptr(), b.as_ptr()) && a.len() == b.len()
}

#[test]
fn new_profiler_is_empty_and_sized() {
    let profiler = Profiler::new();
    assert_eq!(profiler.capacity(), INITIAL_CAPACITY);
    assert_eq!(INITIAL_CAPACITY, 1 << 25);
    let frames = profiler.get_frames();
    assert_eq!(frames.0.len(), 1);
    assert!(frames.0[0].calls.is_empty());
}

#[test]
fn default_profiler_is_empty_and_unsized() {
    let profiler = Profiler::default();
    assert_eq!(profiler.capacity(), 0);
    let frames = profiler.get_frames();
    assert_eq!(frames.0.len(), 1);
    assert!(frames.0[0].calls.is_empty());
}

#[test]
fn events_are_recorded_in_order() {
    let frames = sample().get_frames();
    let found = plain(&frames);
    let expected: Vec<Vec<(Result<&str, ()>, u128)>> = vec![
        vec![
            (Ok("main"), 0),
            (Ok("parse"), 127),
            (Err(()), 128),
            (Ok("r\u{e9}sum\u{e9}"), 16_384),
            (Err(()), u64::MAX as u128 + 1),
            (Err(()), u128::MAX),
        ],
        vec![],
        vec![(Ok("parse"), 300), (Err(()), 301)],
    ];
    assert_eq!(found, expected);
}

#[test]
fn sealing_grows_the_capacity_by_half() {
    let mut profiler = Profiler::default();
    for t in 0..4 {
        profiler.call_at("f", t);
    }
    profiler.end_frame();
    assert_eq!(profiler.capacity(), 6);
    // a frame that fits leaves the capacity alone
    for t in 0..6 {
        profiler.ret_at(t);
    }
    profiler.end_frame();
    assert_eq!(profiler.capacity(), 6);
    profiler.end_frame();
    assert_eq!(profiler.capacity(), 6);
    // an odd length is rounded up
    for t in 0..7 {
        profiler.call_at("f", t);
    }
    profiler.end_frame();
    assert_eq!(profiler.capacity(), 11);
    let frames = profiler.get_frames();
    let lens: Vec<usize> = frames.0.iter().map(|f| f.calls.len()).collect();
    assert_eq!(lens, vec![4, 6, 0, 7, 0]);
}

#[test]
fn grown_capacity_is_at_least_one_and_a_half_times_the_frame() {
    for len in 1..40usize {
        let mut profiler = Profiler::default();
        for t in 0..len {
            profiler.call_at("f", t as u128);
        }
        profiler.end_frame();
        assert!(2 * profiler.capacity() >= 3 * len);
        assert!(2 * profiler.capacity() <= 3 * len + 1);
    }
    let mut profiler = Profiler::default();
    for t in 0..3 {
        profiler.call_at("f", t);
    }
    profiler.end_frame();
    assert_eq!(profiler.capacity(), 5);
}

#[test]
fn capacity_never_shrinks() {
    let mut profiler = Profiler::default();
    let mut last = profiler.capacity();
    for round in 0..30usize {
        for t in 0..(round * 7 % 11) {
            profiler.call_at("f", t as u128);
        }
        profiler.end_frame();
        assert!(profiler.capacity() >= last);
        last = profiler.capacity();
    }
    assert_eq!(last, 11);
}

#[test]
fn clock_events_are_stamped_in_order() {
    let mut profiler = Profiler::default();
    profiler.call("outer");
    let token = FunctionCall::new(&mut profiler, "inner");
    token.end(&mut profiler);
    profiler.ret();
    let frames = profiler.get_frames();
    let events = &frames.0[0].calls;
    assert_eq!(events.len(), 4);
    let ops: Vec<Option<&str>> = events
        .iter()
        .map(|e| match e.op {
            Operation::Call(name) => Some(name.as_str()),
            Operation::Return => None,
        })
        .collect();
    assert_eq!(ops, vec![Some("outer"), Some("inner"), None, None]);
    for pair in events.windows(2) {
        assert!(pair[0].timestamp <= pair[1].timestamp);
    }
}

#[test]
fn encoding_is_that_of_postcard() {
    let frames = sample().get_frames();
    let expected = postcard::to_stdvec(&plain(&frames)).unwrap();
    assert_eq!(encode_frames(&frames.0).unwrap(), expected);
    assert_eq!(sample().dump_frames().unwrap(), expected);
}

#[test]
fn encoding_of_a_small_capture_byte_by_byte() {
    let mut profiler = Profiler::default();
    profiler.call_at("Hi!", 300);
    profiler.ret_at(5);
    let bytes = profiler.dump_frames().unwrap();
    assert_eq!(bytes, vec![1, 2, 0, 3, b'H', b'i', b'!', 0xAC, 0x02, 1, 5]);
    let bytes = Profiler::default().dump_frames().unwrap();
    assert_eq!(bytes, vec![1, 0]);
    assert_eq!(encode_frames(&Vec::new()).unwrap(), vec![0]);
}

#[test]
fn load_gives_back_what_was_dumped() {
    let expected = plain(&sample().get_frames())
        .into_iter()
        .map(|f| f.into_iter().map(|(op, t)| (op.map(String::from), t)).collect::<Vec<_>>())
        .collect::<Vec<_>>();
    let bytes = sample().dump_frames().unwrap();
    let mut interner = StaticStrVisitor::new();
    let frames = Profiler::load_frames(&bytes, &mut interner).unwrap();
    let found = plain(&frames)
        .into_iter()
        .map(|f| f.into_iter().map(|(op, t)| (op.map(String::from), t)).collect::<Vec<_>>())
        .collect::<Vec<_>>();
    assert_eq!(found, expected);
    assert_eq!(interner.len(), 3);
}

#[test]
fn loaded_names_are_canonical() {
    let bytes = sample().dump_frames().unwrap();
    let mut interner = StaticStrVisitor::new();
    let known = interner.visit_str("parse");
    let frames = Profiler::load_frames(&bytes, &mut interner).unwrap();
    let again = Profiler::load_frames(&bytes, &mut interner).unwrap();
    assert_eq!(interner.len(), 3);
    let first = match frames.0[0].calls[1].op {
        Operation::Call(name) => name,
        Operation::Return => panic!("a call was encoded"),
    };
    let second = match frames.0[2].calls[0].op {
        Operation::Call(name) => name,
        Operation::Return => panic!("a call was encoded"),
    };
    let third = match again.0[2].calls[0].op {
        Operation::Call(name) => name,
        Operation::Return => panic!("a call was encoded"),
    };
    assert_eq!(first.as_str(), "parse");
    assert!(same_storage(first.as_str(), known.as_str()));
    assert!(same_storage(second.as_str(), known.as_str()));
    assert!(same_storage(third.as_str(), known.as_str()));
    assert!(same_storage(interner.visit_str("main").as_str(), match frames.0[0].calls[0].op {
        Operation::Call(name) => name.as_str(),
        Operation::Return => panic!("a call was encoded"),
    }));
}

#[test]
fn load_reads_what_postcard_wrote() {
    let value: Vec<Vec<(Result<&str, ()>, u128)>> =
        vec![vec![(Ok("a"), 1), (Err(()), u128::MAX)], vec![(Ok("b"), 1 << 100)]];
    let bytes = postcard::to_stdvec(&value).unwrap();
    let mut interner = StaticStrVisitor::new();
    let frames = Profiler::load_frames(&bytes, &mut interner).unwrap();
    assert_eq!(plain(&frames), value);
}

#[test]
fn load_ignores_what_follows_the_capture() {
    let mut bytes = sample().dump_frames().unwrap();
    let expected = plain(&sample().get_frames());
    bytes.extend_from_slice(&[0xFF, 0xFF, 0x00, 0x07]);
    let mut interner = StaticStrVisitor::new();
    let frames = Profiler::load_frames(&bytes, &mut interner).unwrap();
    assert_eq!(plain(&frames), expected);
}

#[test]
fn load_refuses_truncated_bytes_and_registers_nothing() {
    let bytes = sample().dump_frames().unwrap();
    for len in 0..bytes.len() {
        let mut interner = StaticStrVisitor::new();
        let result = Profiler::load_frames(&bytes[..len], &mut interner);
        assert!(matches!(result, Err(ProfilerError::SerializationError(_))), "prefix of {} bytes", len);
        assert_eq!(interner.len(), 0);
    }
}

#[test]
fn load_error_is_that_of_postcard() {
    let mut interner = StaticStrVisitor::new();
    let expect = |bytes: &[u8], interner: &mut StaticStrVisitor| match Profiler::load_frames(bytes, interner) {
        Err(ProfilerError::SerializationError(e)) => e,
        _ => panic!("the bytes are no capture"),
    };
    assert_eq!(expect(&[], &mut interner), postcard::Error::DeserializeUnexpectedEnd);
    // one frame of one event whose variant index is 2
    assert_eq!(expect(&[1, 1, 2, 0], &mut interner), postcard::Error::SerdeDeCustom);
    // a name that is not UTF-8
    assert_eq!(expect(&[1, 1, 0, 1, 0xFF, 0], &mut interner), postcard::Error::DeserializeBadUtf8);
    // a length that does not end
    assert_eq!(
        expect(&[0x80, 0x80, 0x80, 0x80, 0x80, 0x80, 0x80, 0x80, 0x80, 0x80, 0x80], &mut interner),
        postcard::Error::DeserializeBadVarint
    );
    // a name is read, then the timestamp is missing: the name is not registered
    assert_eq!(expect(&[1, 1, 0, 1, b'x'], &mut interner), postcard::Error::DeserializeUnexpectedEnd);
    assert_eq!(interner.len(), 0);
}

#[test]
fn interner_answers_equal_texts_with_one_string() {
    let mut interner = StaticStrVisitor::new();
    assert_eq!(interner.len(), 0);
    let text = String::from("compute");
    let first = interner.visit_str(&text);
    let second = interner.visit_str("compute");
    let third = interner.visit_string(String::from("com") + "pute");
    assert_eq!(first.as_str(), "compute");
    assert!(same_storage(first.as_str(), second.as_str()));
    assert!(same_storage(first.as_str(), third.as_str()));
    // the canonical string is a copy, not the text that was asked for
    assert!(!same_storage(first.as_str(), &text));
    assert_eq!(interner.len(), 1);
}

#[test]
fn interner_keeps_distinct_texts_apart() {
    let mut interner = StaticStrVisitor::new();
    let a = interner.visit_str("a");
    let b = interner.visit_str("b");
    let empty = interner.visit_str("");
    let a_again = interner.visit_str("a");
    assert_eq!(a.as_str(), "a");
    assert_eq!(b.as_str(), "b");
    assert_eq!(empty.as_str(), "");
    assert!(!same_storage(a.as_str(), b.as_str()));
    assert!(same_storage(a.as_str(), a_again.as_str()));
    assert_eq!(interner.len(), 3);
}

#[test]
fn pre_hashed_keeps_text_and_hash() {
    let hashed = PreHashedStr::from_hash("name", 42);
    assert_eq!(hashed.as_str(), "name");
    assert_eq!(hashed.hash_value(), 42);
    assert_eq!(&*hashed, "name");
    assert_eq!(hashed.len(), 4);
}

#[test]
fn pre_hashed_hashes_once_with_the_given_hasher() {
    let hashed = PreHashedStr::new("name", DefaultHasher::new());
    let mut hasher = DefaultHasher::new();
    "name".hash(&mut hasher);
    assert_eq!(hashed.hash_value(), hasher.finish());
    assert_eq!(hashed.as_str(), "name");
}

#[test]
fn pre_hashed_equality_is_that_of_the_text() {
    let a = PreHashedStr::from_hash("name", 1);
    let b = PreHashedStr::from_hash("name", 2);
    let c = PreHashedStr::from_hash("other", 1);
    assert!(a == b);
    assert!(a != c);
}

#[test]
fn pre_hashed_feeds_the_cached_hash() {
    let hashed = PreHashedStr::from_hash("name", 0xDEAD_BEEF);
    let mut through = DefaultHasher::new();
    hashed.hash(&mut through);
    let mut direct = DefaultHasher::new();
    direct.write_u64(0xDEAD_BEEF);
    assert_eq!(through.finish(), direct.finish());
}
