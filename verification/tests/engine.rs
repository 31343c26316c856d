use can_do::permission::{Change, IOError, Permission, PermissionError, IO};

const U: u64 = 1;
const G1: u64 = 101;
const G2: u64 = 102;
const READ: u64 = 11;
const WRITE: u64 = 12;

/// A sink that journals into memory and never fails.
struct MemorySink {
    history: Vec<Change>,
    journal: Vec<Change>,
    unflushed: Vec<Change>,
}

impl MemorySink {
    fn new() -> MemorySink {
        MemorySink { history: Vec::new(), journal: Vec::new(), unflushed: Vec::new() }
    }

    fn with_history(history: Vec<Change>) -> MemorySink {
        MemorySink { history, journal: Vec::new(), unflushed: Vec::new() }
    }
}

impl IO for MemorySink {
    fn read_all(&mut self) -> Vec<Change> {
        self.history.clone()
    }

    fn write(&mut self, change: &Change) -> Result<(), IOError> {
        self.unflushed.push(*change);
        Ok(())
    }

    fn flush(&mut self) -> Result<(), IOError> {
        self.journal.append(&mut self.unflushed);
        Ok(())
    }

    fn clear(&mut self) -> Result<(), IOError> {
        self.unflushed.clear();
        Ok(())
    }
}

/// A sink whose flush always fails; clearing works.
struct FlushFailsSink;

impl IO for FlushFailsSink {
    fn read_all(&mut self) -> Vec<Change> {
        Vec::new()
    }

    fn write(&mut self, _change: &Change) -> Result<(), IOError> {
        Ok(())
    }

    fn flush(&mut self) -> Result<(), IOError> {
        Err(IOError::Flush)
    }

    fn clear(&mut self) -> Result<(), IOError> {
        Ok(())
    }
}

/// A sink that fails both flush and clear.
struct BrokenSink;

impl IO for BrokenSink {
    fn read_all(&mut self) -> Vec<Change> {
        Vec::new()
    }

    fn write(&mut self, _change: &Change) -> Result<(), IOError> {
        Ok(())
    }

    fn flush(&mut self) -> Result<(), IOError> {
        Err(IOError::Flush)
    }

    fn clear(&mut self) -> Result<(), IOError> {
        Err(IOError::Clear)
    }
}

/// A sink that refuses every write.
struct WriteFailsSink;

impl IO for WriteFailsSink {
    fn read_all(&mut self) -> Vec<Change> {
        Vec::new()
    }

    fn write(&mut self, _change: &Change) -> Result<(), IOError> {
        Err(IOError::Write)
    }

    fn flush(&mut self) -> Result<(), IOError> {
        Ok(())
    }

    fn clear(&mut self) -> Result<(), IOError> {
        Ok(())
    }
}

#[test]
fn transitive_membership_through_the_engine() {
    let mut engine = Permission::new(MemorySink::new());
    engine
        .change(vec![
            Change::ConnectGrantees(U, G1),
            Change::ConnectGrantees(G1, G2),
            Change::AddGrant(G2, READ),
        ])
        .unwrap();

    assert_eq!(Ok(true), engine.check(U, READ));
    assert_eq!(Ok(true), engine.check(G1, READ));
}

#[test]
fn transitive_action_through_the_engine() {
    let mut engine = Permission::new(MemorySink::new());
    engine
        .change(vec![Change::ConnectActions(READ, WRITE), Change::AddGrant(U, READ)])
        .unwrap();

    assert_eq!(Ok(true), engine.check(U, WRITE));
    assert_eq!(Ok(true), engine.check(U, READ));
}

#[test]
fn history_is_replayed_at_construction() {
    let sink = MemorySink::with_history(vec![
        Change::AddGrant(U, READ),
        Change::ConnectActions(READ, WRITE),
    ]);
    let engine = Permission::new(sink);

    assert_eq!(Ok(true), engine.check(U, WRITE));
}

#[test]
fn a_published_batch_is_visible_as_a_whole() {
    let mut engine = Permission::new(MemorySink::new());
    engine
        .change(vec![
            Change::AddGrant(U, READ),
            Change::AddRoot(U),
            Change::ConnectGrantees(G1, U),
        ])
        .unwrap();

    assert_eq!(Ok(true), engine.check(U, READ));
    assert_eq!(Ok(true), engine.check(G1, READ));
    assert_eq!(
        Err(PermissionError::Check(can_do::cando::CanDoError::ActionNotFound)),
        engine.check(G1, WRITE)
    );
}

#[test]
fn a_failed_flush_leaves_the_reader_snapshot_unchanged() {
    let mut engine = Permission::new(FlushFailsSink);

    let r = engine.change(vec![Change::AddGrant(U, READ)]);
    assert_eq!(Err(PermissionError::Io(IOError::Flush)), r);

    // The batch was never published: the reader still knows nothing.
    assert_eq!(
        Err(PermissionError::Check(can_do::cando::CanDoError::GranteeNotFound)),
        engine.check(U, READ)
    );
}

#[test]
fn a_failed_write_rejects_the_batch() {
    let mut engine = Permission::new(WriteFailsSink);

    let r = engine.change(vec![Change::AddGrant(U, READ)]);
    assert_eq!(Err(PermissionError::Io(IOError::Write)), r);
    assert_eq!(
        Err(PermissionError::Check(can_do::cando::CanDoError::GranteeNotFound)),
        engine.check(U, READ)
    );
}

#[test]
fn poison_propagation() {
    let mut engine = Permission::new(BrokenSink);

    let r = engine.change(vec![Change::AddGrant(U, READ)]);
    assert_eq!(Err(PermissionError::Io(IOError::Clear)), r);

    // Every subsequent call is refused.
    assert_eq!(Err(PermissionError::Failed), engine.check(U, READ));
    assert_eq!(Err(PermissionError::Failed), engine.check(G1, WRITE));
    assert_eq!(
        Err(PermissionError::Failed),
        engine.change(vec![Change::AddGrant(U, WRITE)])
    );
}

#[test]
fn readers_keep_the_pre_publish_snapshot_until_a_batch_lands() {
    // A reader that consulted the engine before a removal was published saw
    // the old answer; once the removal is published, the new one.
    let mut engine = Permission::new(MemorySink::new());
    engine.change(vec![Change::AddGrant(U, READ)]).unwrap();
    assert_eq!(Ok(true), engine.check(U, READ));

    engine.change(vec![Change::RemoveGrantee(U)]).unwrap();
    assert_eq!(
        Err(PermissionError::Check(can_do::cando::CanDoError::GranteeNotFound)),
        engine.check(U, READ)
    );
}

#[test]
fn clear_wipes_the_graph() {
    let mut engine = Permission::new(MemorySink::new());
    engine.change(vec![Change::AddGrant(U, READ)]).unwrap();
    engine.change(vec![Change::Clear]).unwrap();

    assert_eq!(
        Err(PermissionError::Check(can_do::cando::CanDoError::GranteeNotFound)),
        engine.check(U, READ)
    );
}

#[test]
fn disconnects_and_grant_removal_through_the_engine() {
    let mut engine = Permission::new(MemorySink::new());
    engine
        .change(vec![
            Change::AddGrant(U, READ),
            Change::ConnectGrantees(G1, U),
            Change::ConnectActions(READ, WRITE),
        ])
        .unwrap();
    assert_eq!(Ok(true), engine.check(G1, WRITE));

    engine.change(vec![Change::DisconnectGrantees(G1, U)]).unwrap();
    assert_eq!(Ok(false), engine.check(G1, WRITE));

    engine.change(vec![Change::DisconnectActions(READ, WRITE)]).unwrap();
    assert_eq!(Ok(false), engine.check(U, WRITE));
    assert_eq!(Ok(true), engine.check(U, READ));

    engine.change(vec![Change::RemoveGrant(U, READ)]).unwrap();
    assert_eq!(Ok(false), engine.check(U, READ));
}

#[test]
fn root_marks_flow_through_the_engine() {
    let mut engine = Permission::new(MemorySink::new());
    engine
        .change(vec![
            Change::AddRoot(U),
            Change::RemoveRoot(U),
            Change::AddRoot(G1),
            Change::AddGrant(G1, READ),
        ])
        .unwrap();
    assert_eq!(Ok(true), engine.check(G1, READ));
    assert_eq!(Ok(false), engine.check(U, READ));
}
