use cleanup::depth::{DepthLevel, LevelError};
use cleanup::message::{render, Language, Message};

fn line(lang: Language, m: Message) -> String {
    render(lang, &m)
}

#[test]
fn english_lines() {
    let l = Language::en_US;
    assert_eq!(line(l, Message::DirEntry("./p".to_string())), "cleanup: Entering directory './p'");
    assert_eq!(line(l, Message::DirLeave("./p".to_string())), "cleanup: Leaving directory './p'");
    assert_eq!(line(l, Message::FileRemove("./f".to_string())), "cleanup: Deleting file './f'");
    assert_eq!(line(l, Message::DirRemove("./d".to_string())), "cleanup: Deleting directory './d'");
}

#[test]
fn german_lines() {
    let l = Language::de_DE;
    assert_eq!(line(l, Message::DirEntry("./p".to_string())), "cleanup: Verzeichnis './p' wird betreten");
    assert_eq!(line(l, Message::DirLeave("./p".to_string())), "cleanup: Verzeichnis './p' wird verlassen");
    assert_eq!(line(l, Message::FileRemove("./f".to_string())), "cleanup: Datei './f' wird gelöscht");
    assert_eq!(line(l, Message::DirRemove("./d".to_string())), "cleanup: Verzeichnis './d' wird gelöscht");
}

#[test]
fn path_kept_verbatim() {
    let p = "./ä b/'c'";
    assert_eq!(
        line(Language::en_US, Message::FileRemove(p.to_string())),
        format!("cleanup: Deleting file '{}'", p)
    );
}

#[test]
fn language_from_lang() {
    assert_eq!(Language::from_lang("de_DE.UTF-8"), Language::de_DE);
    assert_eq!(Language::from_lang("de_DE"), Language::de_DE);
    assert_eq!(Language::from_lang("de_AT.UTF-8"), Language::en_US);
    assert_eq!(Language::from_lang("en_US.UTF-8"), Language::en_US);
    assert_eq!(Language::from_lang("de"), Language::en_US);
    assert_eq!(Language::from_lang(""), Language::en_US);
    assert_eq!(Language::from_lang("C"), Language::en_US);
}

#[test]
fn allows_increment_cases() {
    assert!(DepthLevel::Bound(2).allows_increment(&1));
    assert!(!DepthLevel::Bound(2).allows_increment(&2));
    assert!(!DepthLevel::Bound(1).allows_increment(&1));
    assert!(!DepthLevel::Bound(0).allows_increment(&1));
    assert!(DepthLevel::Infinity.allows_increment(&4000000000));
}

#[test]
fn level_parsing() {
    assert_eq!(DepthLevel::from("0"), Ok(DepthLevel::Bound(0)));
    assert_eq!(DepthLevel::from("3"), Ok(DepthLevel::Bound(3)));
    assert_eq!(DepthLevel::from("+12"), Ok(DepthLevel::Bound(12)));
    assert_eq!(DepthLevel::from("007"), Ok(DepthLevel::Bound(7)));
    assert_eq!(DepthLevel::from("4294967295"), Ok(DepthLevel::Bound(4294967295)));
}

#[test]
fn level_errors() {
    assert_eq!(DepthLevel::from(""), Err(LevelError::NotANumber));
    assert_eq!(DepthLevel::from("+"), Err(LevelError::NotANumber));
    assert_eq!(DepthLevel::from("-1"), Err(LevelError::NotANumber));
    assert_eq!(DepthLevel::from("1a"), Err(LevelError::NotANumber));
    assert_eq!(DepthLevel::from(" 1"), Err(LevelError::NotANumber));
    assert_eq!(DepthLevel::from("99999999999x"), Err(LevelError::NotANumber));
    assert_eq!(DepthLevel::from("4294967296"), Err(LevelError::TooLarge));
    assert_eq!(DepthLevel::from("123456789012345678901234567890"), Err(LevelError::TooLarge));
}
