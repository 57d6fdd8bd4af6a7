use iso2x::cci::write::{CciSession, CciWriteError};
use iso2x::extracted::ExtractedSession;
use iso2x::session::{SessionError, SessionInner, SessionStep};
use iso2x::source::{ImageFile, ImageFiles, MemorySource};
use iso2x::xiso::write::XisoSession;
use iso2x::zar::write::ZarSession;

type Session = SessionInner<MemorySource, ImageFiles<MemorySource>>;

fn files() -> ImageFiles<MemorySource> {
    let list = vec![ImageFile { path: "a.bin".to_string(), offset: 0, size: 4 }];
    ImageFiles::new(MemorySource { data: vec![1, 2, 3, 4] }, list)
}

fn run(session: &mut Session) -> Vec<u8> {
    while !session.hash_next_part().unwrap() {}
    let mut out = Vec::new();
    loop {
        match session.next_chunk(1000).unwrap() {
            SessionStep::Done => break,
            SessionStep::Chunk(c) => out.extend_from_slice(&c),
            _ => panic!("nothing else is due"),
        }
    }
    assert!(session.is_done());
    out
}

#[test]
fn sessions_without_preparation_are_ready_at_once() {
    let image = MemorySource { data: vec![5u8; 4096] };
    let xiso = XisoSession::open(image, 2, 1, false, None).ok().unwrap();
    let mut s: Session = SessionInner::Xiso(xiso);
    assert_eq!(s.hash_next_part(), Ok(true));
    assert_eq!(s.total_units(), 2);
    assert_eq!(s.units_done(), None);
    assert_eq!(s.current_entry_name(), None);
    assert!(s.output_manifest(0).is_empty());
    assert_eq!(run(&mut s), vec![5u8; 4096]);
}

#[test]
fn extracted_session_hands_out_files() {
    let mut s: Session = SessionInner::Extracted(ExtractedSession::open(files(), false, None));
    assert_eq!(s.output_manifest(0), vec![("a.bin".to_string(), 4)]);
    assert_eq!(run(&mut s), vec![1, 2, 3, 4]);
    assert_eq!(s.current_entry_name().as_deref(), Some("a.bin"));
}

#[test]
fn archive_session_counts_its_input() {
    let zar = ZarSession::open(files(), "g".to_string()).ok().unwrap();
    let mut s: Session = SessionInner::Zar(zar);
    assert_eq!(s.units_done(), Some(0));
    let out = run(&mut s);
    assert_eq!(s.units_done(), Some(4));
    assert_eq!(s.output_manifest(0), vec![("g.zar".to_string(), out.len() as u64)]);
}

#[test]
fn session_errors_keep_their_kind() {
    let image = MemorySource { data: vec![5u8; 2048] };
    let mut s: Session = SessionInner::Cci(CciSession::open(image, 1, "g".to_string()));
    let e = match s.next_chunk(1) {
        Err(e) => e,
        Ok(_) => panic!("sizing has not been done"),
    };
    assert_eq!(e, SessionError::Cci(CciWriteError::SizingUnfinished));
    assert_eq!(e.message(), "cci: next_chunk() called before hash_next_part() finished sizing");
}
