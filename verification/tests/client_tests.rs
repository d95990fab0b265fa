use trapmouse::client::{classify_reply, ServerReply};

#[test]
fn replies_are_classified() {
    assert_eq!(classify_reply("{W}{0}{6,6}"), ServerReply::BoardUpdate);
    assert_eq!(classify_reply("Game time"), ServerReply::GameStarts);
    assert_eq!(classify_reply("{Game}"), ServerReply::BoardUpdate);
    assert_eq!(classify_reply("Succesfully created room: x"), ServerReply::Other);
}
