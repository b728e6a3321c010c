use grafeia_core::ids::{Id, SiteId};
use grafeia_core::keys::{SequenceId, TypeId, WordId};
use grafeia_core::content::{Item, Word};
use grafeia_core::document::{DocumentOp, Storage};
use grafeia_core::server::{ClientCommand, Server, ServerAction};
use grafeia_core::weave::{Atom, AtomOp};

#[test]
fn clients_get_site_ids_from_two_on() {
    let mut server = Server::new(Storage::new());
    assert_eq!(server.connect(), SiteId(2));
    assert_eq!(server.connect(), SiteId(3));
    assert_eq!(server.next_id(), SiteId(4));
    assert_eq!(server.connect(), SiteId(5));
}

#[test]
fn join_and_get_all_are_answered_to_the_sender() {
    let mut server = Server::new(Storage::new());
    let a = server.connect();
    match server.user_message(a, ClientCommand::Join) {
        ServerAction::Welcome(s) => assert_eq!(s, a),
        other => panic!("{:?}", other),
    }
    match server.user_message(a, ClientCommand::GetAll) {
        ServerAction::Document(s) => assert_eq!(s, a),
        other => panic!("{:?}", other),
    }
}

#[test]
fn an_operation_is_applied_and_forwarded_to_the_others() {
    let mut server = Server::new(Storage::new());
    let a = server.connect();
    let b = server.connect();
    let c = server.connect();
    let word = WordId(b, 0);
    let op = DocumentOp::CreateWord(word, Word { text: "hi".to_string() });
    match server.user_message(b, ClientCommand::Op(op)) {
        ServerAction::Forward(to) => assert_eq!(to, vec![a, c]),
        other => panic!("{:?}", other),
    }
    assert_eq!(server.storage().get_word(word).text, "hi");
}

#[test]
fn a_gone_client_gets_nothing() {
    let mut server = Server::new(Storage::new());
    let a = server.connect();
    let b = server.connect();
    let c = server.connect();
    server.disconnect(a);
    let seq = SequenceId(c, 0);
    let op = DocumentOp::CreateSequence(seq, TypeId(c, 0));
    match server.user_message(c, ClientCommand::Op(op)) {
        ServerAction::Forward(to) => assert_eq!(to, vec![b]),
        other => panic!("{:?}", other),
    }
    let atom = Atom { prev: Id { clock: 0, site: SiteId(0) }, op: AtomOp::Add(Item::Word(WordId(c, 0))), id: Id { clock: 1, site: c } };
    assert!(server.can_apply(&DocumentOp::SeqOp(seq, atom)));
    assert!(!server.can_apply(&DocumentOp::SeqOp(SequenceId(c, 9), atom)));
    let dangling = Atom { prev: Id { clock: 7, site: c }, ..atom };
    assert!(!server.can_apply(&DocumentOp::SeqOp(seq, dangling)));
    match server.user_message(b, ClientCommand::Op(DocumentOp::SeqOp(seq, atom))) {
        ServerAction::Forward(to) => assert_eq!(to, vec![c]),
        other => panic!("{:?}", other),
    }
    assert_eq!(server.storage().get_weave(seq).render(), vec![Item::Word(WordId(c, 0))]);
}
