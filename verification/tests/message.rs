use bytes::Bytes;
use kadmium::message::{Chunk, FindKNodes, Init, KNodes, Message, Ping, Pong};
use kadmium::Id;
use rand::{thread_rng, Rng};

fn all_variants(nonce: u128) -> Vec<Message> {
    let id = Id::from_u16(0);
    vec![
        Message::Init(Init { nonce, id, port: 0 }),
        Message::Ping(Ping { nonce, id }),
        Message::Pong(Pong { nonce, id }),
        Message::FindKNodes(FindKNodes { nonce, id }),
        Message::KNodes(KNodes { nonce, nodes: vec![] }),
        Message::Chunk(Chunk { nonce, height: 0, data: Bytes::new() }),
    ]
}

#[test]
fn variant_as_str() {
    let variants = all_variants(0);
    assert_eq!(variants[0].variant_as_str(), "init");
    assert_eq!(variants[1].variant_as_str(), "ping");
    assert_eq!(variants[2].variant_as_str(), "pong");
    assert_eq!(variants[3].variant_as_str(), "find_k_nodes");
    assert_eq!(variants[4].variant_as_str(), "k_nodes");
    assert_eq!(variants[5].variant_as_str(), "chunk");
}

#[test]
fn nonce() {
    // Reuse the same RNG for all nonce tests.
    let mut rng = thread_rng();
    for i in 0..6 {
        let nonce: u128 = rng.gen();
        let message = all_variants(nonce).swap_remove(i);
        // Check `Message::nonce` returns the same nonce.
        assert_eq!(message.nonce(), nonce);
    }
}

#[test]
fn is_response() {
    let variants = all_variants(0);
    let responses: Vec<bool> = variants.iter().map(|m| m.is_response()).collect();
    assert_eq!(responses, vec![false, false, true, false, true, false]);
}
