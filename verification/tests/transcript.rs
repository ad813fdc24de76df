use ck_meow::Meow;
use magikitten::{MeowRng, Transcript};

fn read(rng: &mut MeowRng, len: usize) -> Vec<u8> {
    let mut out = vec![0u8; len];
    rng.fill_bytes(&mut out);
    out
}

#[test]
fn test_changing_label_gives_different_results() {
    let mut t0 = Transcript::new(b"protocol");
    t0.message(b"label A", b"message");
    let x0 = t0.challenge(b"challenge").next_u64();

    let mut t1 = Transcript::new(b"protocol");
    t1.message(b"label B", b"message");
    let x1 = t0.challenge(b"challenge").next_u64();

    assert_ne!(x0, x1);
}

#[test]
fn test_changing_message_gives_different_results() {
    let mut t0 = Transcript::new(b"protocol");
    t0.message(b"label", b"message A");
    let x0 = t0.challenge(b"challenge").next_u64();

    let mut t1 = Transcript::new(b"protocol");
    t1.message(b"label", b"message B");
    let x1 = t0.challenge(b"challenge").next_u64();

    assert_ne!(x0, x1);
}

#[test]
fn test_changing_protocol_gives_different_results() {
    let mut t0 = Transcript::new(b"protocol A");
    t0.message(b"label", b"message");
    let x0 = t0.challenge(b"challenge").next_u64();

    let mut t1 = Transcript::new(b"protocol B");
    t1.message(b"label", b"message");
    let x1 = t0.challenge(b"challenge").next_u64();

    assert_ne!(x0, x1);
}

#[test]
fn two_transcripts_differ_by_label() {
    let mut t0 = Transcript::new(b"protocol");
    t0.message(b"label A", b"message");
    let mut t1 = Transcript::new(b"protocol");
    t1.message(b"label B", b"message");
    assert_ne!(read(&mut t0.challenge(b"c"), 32), read(&mut t1.challenge(b"c"), 32));
}

#[test]
fn two_transcripts_differ_by_data() {
    let mut t0 = Transcript::new(b"protocol");
    t0.message(b"label", b"message A");
    let mut t1 = Transcript::new(b"protocol");
    t1.message(b"label", b"message B");
    assert_ne!(read(&mut t0.challenge(b"c"), 32), read(&mut t1.challenge(b"c"), 32));
}

#[test]
fn two_transcripts_differ_by_protocol() {
    let mut t0 = Transcript::new(b"protocol A");
    t0.message(b"label", b"message");
    let mut t1 = Transcript::new(b"protocol B");
    t1.message(b"label", b"message");
    assert_ne!(read(&mut t0.challenge(b"c"), 32), read(&mut t1.challenge(b"c"), 32));
}

#[test]
fn two_transcripts_differ_by_challenge_label() {
    let mut t0 = Transcript::new(b"protocol");
    let mut t1 = Transcript::new(b"protocol");
    assert_ne!(read(&mut t0.challenge(b"c0"), 32), read(&mut t1.challenge(b"c1"), 32));
}

#[test]
fn the_same_calls_give_the_same_challenges() {
    let mut streams: Vec<Vec<u8>> = Vec::new();
    for _ in 0..2 {
        let mut t = Transcript::new(b"my protocol");
        t.message(b"message0", b"hello world!");
        let mut c0 = t.challenge(b"challenge0");
        t.message(b"message1", b"hello again!");
        let mut c1 = t.challenge(b"challenge1");
        let mut bytes = read(&mut c0, 100);
        bytes.extend(read(&mut c1, 100));
        bytes.extend(c0.next_u64().to_le_bytes());
        streams.push(bytes);
    }
    assert_eq!(streams[0], streams[1]);
}

#[test]
fn a_challenge_changes_the_transcript() {
    let mut t = Transcript::new(b"protocol");
    t.message(b"label", b"message");
    let first = read(&mut t.challenge(b"challenge"), 32);
    let second = read(&mut t.challenge(b"challenge"), 32);
    assert_ne!(first, second);

    let mut with = Transcript::new(b"protocol");
    let mut without = Transcript::new(b"protocol");
    let _ = with.challenge(b"early");
    with.message(b"label", b"message");
    without.message(b"label", b"message");
    assert_ne!(read(&mut with.challenge(b"c"), 32), read(&mut without.challenge(b"c"), 32));
}

#[test]
fn the_order_of_messages_matters() {
    let mut t0 = Transcript::new(b"protocol");
    t0.message(b"a", b"1");
    t0.message(b"b", b"2");
    let mut t1 = Transcript::new(b"protocol");
    t1.message(b"b", b"2");
    t1.message(b"a", b"1");
    assert_ne!(read(&mut t0.challenge(b"c"), 32), read(&mut t1.challenge(b"c"), 32));
}

#[test]
fn a_label_may_be_a_prefix_of_another() {
    let mut t0 = Transcript::new(b"protocol");
    t0.message(b"ab", b"c");
    let mut t1 = Transcript::new(b"protocol");
    t1.message(b"a", b"bc");
    let mut t2 = Transcript::new(b"protocol");
    t2.message(b"abc", b"");
    let x0 = read(&mut t0.challenge(b"c"), 32);
    let x1 = read(&mut t1.challenge(b"c"), 32);
    let x2 = read(&mut t2.challenge(b"c"), 32);
    assert_ne!(x0, x1);
    assert_ne!(x0, x2);
    assert_ne!(x1, x2);
}

#[test]
fn forks_with_different_arguments_differ() {
    let mut base = Transcript::new(b"protocol");
    base.message(b"shared", b"history");
    let mut alice = base.forked(b"party", b"alice");
    let mut bob = base.forked(b"party", b"bob");
    let mut other = base.forked(b"role", b"alice");
    let a = read(&mut alice.challenge(b"challenge"), 32);
    let b = read(&mut bob.challenge(b"challenge"), 32);
    let o = read(&mut other.challenge(b"challenge"), 32);
    assert_ne!(a, b);
    assert_ne!(a, o);
    assert_ne!(b, o);
}

#[test]
fn forks_with_the_same_arguments_agree() {
    let mut base = Transcript::new(b"protocol");
    base.message(b"shared", b"history");
    let mut first = base.forked(b"party", b"alice");
    let mut second = base.forked(b"party", b"alice");
    assert_eq!(
        read(&mut first.challenge(b"challenge"), 64),
        read(&mut second.challenge(b"challenge"), 64)
    );
}

#[test]
fn a_fork_leaves_its_base_alone() {
    let mut forked_from = Transcript::new(b"protocol");
    forked_from.message(b"shared", b"history");
    let mut untouched = Transcript::new(b"protocol");
    untouched.message(b"shared", b"history");

    let mut fork = forked_from.forked(b"party", b"alice");
    let _ = fork.challenge(b"challenge");
    fork.message(b"more", b"data");

    assert_eq!(
        read(&mut forked_from.challenge(b"challenge"), 64),
        read(&mut untouched.challenge(b"challenge"), 64)
    );
}

#[test]
fn a_fork_is_its_base_with_one_more_message() {
    let mut base = Transcript::new(b"protocol");
    base.message(b"shared", b"history");
    let mut fork = base.forked(b"party", b"alice");
    base.message(b"party", b"alice");
    assert_eq!(
        read(&mut fork.challenge(b"challenge"), 64),
        read(&mut base.challenge(b"challenge"), 64)
    );
}

#[test]
fn a_fork_differs_from_its_base() {
    let mut base = Transcript::new(b"protocol");
    base.message(b"shared", b"history");
    let mut fork = base.forked(b"", b"");
    assert_ne!(
        read(&mut fork.challenge(b"challenge"), 32),
        read(&mut base.challenge(b"challenge"), 32)
    );
}

#[test]
fn the_transcript_frames_what_it_absorbs() {
    let mut meow = Meow::new(b"protocol");
    meow.ratchet();
    // message(b"label", b"some data")
    meow.meta_ad(&[5], false);
    meow.meta_ad(b"label", true);
    meow.meta_ad(&[9], true);
    meow.ad(b"some data", false);
    // challenge(b"challenge")
    meow.meta_ad(&[9], false);
    meow.meta_ad(b"challenge", true);
    meow.meta_ad(&[0], true);
    let mut seed = [0u8; 32];
    meow.prf(&mut seed, false);
    let mut expected = MeowRng::new(&seed);

    let mut t = Transcript::new(b"protocol");
    t.message(b"label", b"some data");
    let mut challenge = t.challenge(b"challenge");
    assert_eq!(read(&mut challenge, 64), read(&mut expected, 64));

    // the transcript goes on from the state that the squeeze left
    meow.meta_ad(&[1], false);
    meow.meta_ad(b"x", true);
    meow.meta_ad(&[0], true);
    meow.prf(&mut seed, false);
    let mut expected = MeowRng::new(&seed);
    assert_eq!(read(&mut t.challenge(b"x"), 64), read(&mut expected, 64));
}

#[test]
fn long_fields_are_framed_with_longer_lengths() {
    let data = vec![0xABu8; 16384];
    let mut meow = Meow::new(b"protocol");
    meow.ratchet();
    meow.meta_ad(&[3], false);
    meow.meta_ad(b"big", true);
    meow.meta_ad(&[0x80, 0x80, 0x01], true);
    meow.ad(&data, false);
    meow.meta_ad(&[1], false);
    meow.meta_ad(b"c", true);
    meow.meta_ad(&[0], true);
    let mut seed = [0u8; 32];
    meow.prf(&mut seed, false);
    let mut expected = MeowRng::new(&seed);

    let mut t = Transcript::new(b"protocol");
    t.message(b"big", &data);
    assert_eq!(read(&mut t.challenge(b"c"), 32), read(&mut expected, 32));
}

#[test]
fn an_empty_message_is_still_a_message() {
    let mut with = Transcript::new(b"protocol");
    with.message(b"", b"");
    let mut without = Transcript::new(b"protocol");
    assert_ne!(read(&mut with.challenge(b"c"), 32), read(&mut without.challenge(b"c"), 32));
}
