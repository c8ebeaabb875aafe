//! Isolated deterministic fault harness for the persistent cache.
//!
//! The harness's input format, its oracle and its trace are here; a caller runs
//! the commands against a cache.

use vstd::prelude::*;
use vstd::string::*;

use crate::bytes;

verus! {

/// The capacity of the simulated cache.
pub const CAPACITY_BYTES: u64 = 2_097_152;

/// The greatest number of commands of one input.
pub const MAX_COMMANDS: usize = 48;

/// The number of modeled paths.
pub const PATH_COUNT: u8 = 4;

/// The greatest length of a body.
pub const MAX_BODY_BYTES: usize = 32_768;

/// The bytes of one encoded command.
pub const COMMAND_BYTES: usize = 6;

/// Observable trace emitted by the isolated persistent-cache simulation.
#[derive(Clone, Debug, PartialEq, Eq)]
pub enum DiskCacheEvent {
    /// Result of opening one database identity.
    Opened { identity: u8, enabled: bool, last_sequence_point: Option<u64> },
    /// Result of looking up one modeled path.
    Lookup { identity: u8, path: u8, record_digest: Option<[u8; 32]> },
    /// Cache state after an operation that does not return a record.
    State { operation: u8, enabled: bool },
}

/// What a command does.
#[derive(Clone, Copy, Debug, PartialEq, Eq, Structural)]
pub enum CommandKind {
    /// Opens the cache of a database identity.
    Open,
    /// Replaces the record of a path.
    Replace,
    /// Looks a path up.
    Lookup,
    /// Invalidates the record of a path.
    Invalidate,
    /// Closes the cache.
    Close,
    /// Loses the process.
    Crash,
    /// Removes the media.
    Detach,
    /// Brings the media back.
    Reattach,
    /// Damages a durable byte.
    Corrupt,
    /// Loses the media for good.
    MakePermanentlyUnavailable,
}

/// The code of a command.
pub open spec fn code_of(kind: CommandKind) -> u8 {
    match kind {
        CommandKind::Open => 0,
        CommandKind::Replace => 1,
        CommandKind::Lookup => 2,
        CommandKind::Invalidate => 3,
        CommandKind::Close => 4,
        CommandKind::Crash => 5,
        CommandKind::Detach => 6,
        CommandKind::Reattach => 7,
        CommandKind::Corrupt => 8,
        CommandKind::MakePermanentlyUnavailable => 9,
    }
}

impl CommandKind {
    /// Reads a command: the byte's last decimal digit is its code.
    pub fn from_byte(byte: u8) -> (r: Self)
        ensures
            code_of(r) == byte % 10,
    {
        match byte % 10 {
            0 => CommandKind::Open,
            1 => CommandKind::Replace,
            2 => CommandKind::Lookup,
            3 => CommandKind::Invalidate,
            4 => CommandKind::Close,
            5 => CommandKind::Crash,
            6 => CommandKind::Detach,
            7 => CommandKind::Reattach,
            8 => CommandKind::Corrupt,
            _ => CommandKind::MakePermanentlyUnavailable,
        }
    }

    /// Returns the code of the command.
    pub fn operation_code(self) -> (r: u8)
        ensures
            r == code_of(self),
    {
        match self {
            CommandKind::Open => 0,
            CommandKind::Replace => 1,
            CommandKind::Lookup => 2,
            CommandKind::Invalidate => 3,
            CommandKind::Close => 4,
            CommandKind::Crash => 5,
            CommandKind::Detach => 6,
            CommandKind::Reattach => 7,
            CommandKind::Corrupt => 8,
            CommandKind::MakePermanentlyUnavailable => 9,
        }
    }
}

/// Law: the code of a command determines it.
pub proof fn law_codes_are_distinct(a: CommandKind, b: CommandKind)
    ensures
        code_of(a) == code_of(b) ==> a == b,
{
}

/// One command of an input.
#[derive(Clone, Copy, Debug, PartialEq, Eq, Structural)]
pub struct Command {
    /// What the command does.
    pub kind: CommandKind,
    /// The modeled path.
    pub path: u8,
    /// The database identity.
    pub identity: u8,
    /// The size of a body, or the place of a damage.
    pub argument: u16,
    /// The content of a body, or the mask of a damage.
    pub pattern: u8,
}

/// A decoded input: a seed, commands, and the tapes of the scheduler and of the
/// media.
#[derive(Debug)]
pub struct DecodedInput {
    /// The seed.
    pub seed: u64,
    /// The commands.
    pub commands: Vec<Command>,
    /// The tape of the scheduler.
    pub schedule_tape: Vec<u8>,
    /// The tape of the media.
    pub media_tape: Vec<u8>,
}

/// A number of two bytes, the lower one first.
pub open spec fn pair(low: u8, high: u8) -> u16 {
    (low as int + 256 * high as int) as u16
}

/// Some bytes are those of a command.
pub open spec fn encodes(raw: Seq<u8>, command: Command) -> bool {
    &&& raw.len() == COMMAND_BYTES
    &&& code_of(command.kind) == raw[0] % 10
    &&& command.path == raw[1] % PATH_COUNT
    &&& command.identity == raw[2]
    &&& command.argument == pair(raw[3], raw[4])
    &&& command.pattern == raw[5]
}

/// The number of commands on a tape: the first byte says how many are asked
/// for, and the rest of the tape how many there are.
pub open spec fn command_count(tape: Seq<u8>) -> int {
    if tape.len() == 0 {
        0
    } else {
        let asked = tape[0] as int % (MAX_COMMANDS + 1);
        let there = (tape.len() - 1) / (COMMAND_BYTES as int);
        if asked < there {
            asked
        } else {
            there
        }
    }
}

/// The commands of a tape.
pub open spec fn commands_of(tape: Seq<u8>, commands: Seq<Command>) -> bool {
    &&& commands.len() == command_count(tape)
    &&& forall|i: int|
        0 <= i < commands.len() ==> encodes(
            tape.subrange(1 + i * COMMAND_BYTES, 1 + (i + 1) * COMMAND_BYTES),
            #[trigger] commands[i],
        )
}

/// The bytes of an input behind its seed.
pub open spec fn rest_of(data: Seq<u8>) -> Seq<u8> {
    if data.len() <= 8 {
        Seq::empty()
    } else {
        data.skip(8)
    }
}

/// Reads the commands of a tape.
fn decode_commands(tape: &[u8]) -> (r: Vec<Command>)
    ensures
        commands_of(tape@, r@),
{
    let mut commands: Vec<Command> = Vec::new();
    if tape.len() == 0 {
        return commands;
    }
    let asked: usize = tape[0] as usize % (MAX_COMMANDS + 1);
    let there: usize = (tape.len() - 1) / COMMAND_BYTES;
    let count: usize = if asked < there {
        asked
    } else {
        there
    };
    while commands.len() < count
        invariant
            tape@.len() > 0,
            count == command_count(tape@),
            count <= (tape@.len() - 1) / 6,
            commands@.len() <= count,
            forall|i: int|
                0 <= i < commands@.len() ==> encodes(
                    tape@.subrange(1 + i * COMMAND_BYTES, 1 + (i + 1) * COMMAND_BYTES),
                    #[trigger] commands@[i],
                ),
        decreases count - commands@.len(),
    {
        let n: usize = commands.len();
        assert(n < count);
        assert(6 * (n + 1) <= tape.len() - 1);
        let at: usize = 1 + n * COMMAND_BYTES;
        let argument: u16 = tape[at + 3] as u16 + 256 * (tape[at + 4] as u16);
        let command = Command {
            kind: CommandKind::from_byte(tape[at]),
            path: tape[at + 1] % PATH_COUNT,
            identity: tape[at + 2],
            argument,
            pattern: tape[at + 5],
        };
        proof {
            let raw = tape@.subrange(1 + n * COMMAND_BYTES, 1 + (n + 1) * COMMAND_BYTES);
            assert(raw[0] == tape@[at as int]);
            assert(raw[1] == tape@[at + 1]);
            assert(raw[2] == tape@[at + 2]);
            assert(raw[3] == tape@[at + 3]);
            assert(raw[4] == tape@[at + 4]);
            assert(raw[5] == tape@[at + 5]);
        }
        commands.push(command);
    }
    commands
}

/// Decodes an input. The first eight bytes, zero where they are missing, are
/// the seed; the rest is cut in three tapes.
pub fn decode(data: &[u8]) -> (r: DecodedInput)
    ensures
        r.seed == bytes::le64_value(
            if data@.len() < 8 {
                data@ + bytes::zeros(8 - data@.len())
            } else {
                data@.take(8)
            },
        ),
        ({
            let rest = rest_of(data@);
            let third = (rest.len() / 3) as int;
            &&& commands_of(rest.take(third), r.commands@)
            &&& r.schedule_tape@ == rest.subrange(third, third * 2)
            &&& r.media_tape@ == rest.skip(third * 2)
        }),
{
    let seed_len: usize = if data.len() < 8 {
        data.len()
    } else {
        8
    };
    let mut seed: Vec<u8> = bytes::copy(vstd::slice::slice_subrange(data, 0, seed_len));
    let ghost short = seed@;
    bytes::pad(&mut seed, 8);
    let rest = vstd::slice::slice_subrange(data, seed_len, data.len());
    let third: usize = rest.len() / 3;
    proof {
        assert(rest@ =~= rest_of(data@));
        if data@.len() < 8 {
            assert(short =~= data@);
        } else {
            assert(short =~= data@.take(8));
            assert(seed@ =~= data@.take(8));
        }
        assert(rest@.subrange(0, third as int) =~= rest@.take(third as int));
        assert(rest@.subrange(third * 2, rest@.len() as int) =~= rest@.skip(third * 2));
    }
    DecodedInput {
        seed: bytes::from_le64(seed.as_slice()),
        commands: decode_commands(vstd::slice::slice_subrange(rest, 0, third)),
        schedule_tape: bytes::copy(vstd::slice::slice_subrange(rest, third, third * 2)),
        media_tape: bytes::copy(vstd::slice::slice_subrange(rest, third * 2, rest.len())),
    }
}

/// Law: no command reads past its tape, and an input yields no more commands
/// than the greatest number.
pub proof fn law_commands_are_bounded(tape: Seq<u8>, commands: Seq<Command>)
    requires
        commands_of(tape, commands),
    ensures
        commands.len() <= MAX_COMMANDS,
        commands.len() * COMMAND_BYTES <= tape.len(),
        forall|i: int| 0 <= i < commands.len() ==> (#[trigger] commands[i]).path < PATH_COUNT,
{
    if tape.len() > 0 {
        assert(command_count(tape) <= (tape.len() - 1) / 6);
    }
}

/// Returns the modeled path with an index.
pub fn path(index: u8) -> (r: String)
    ensures
        r@ == "db/object-"@ + crate::text::decimal(index as nat),
{
    let mut name = String::from_str("db/object-");
    crate::text::append_decimal(&mut name, index as u64);
    name
}

/// Returns the revision of a replacement: its sequence point and its pattern.
pub fn revision(sequence_point: u64, pattern: u8) -> (r: Vec<u8>)
    ensures
        r@ == bytes::le64(sequence_point).push(pattern),
{
    let mut revision: Vec<u8> = bytes::to_le64(sequence_point);
    revision.push(pattern);
    revision
}

/// The body of a replacement: ascending bytes from the pattern on.
pub open spec fn body_of(argument: u16, pattern: u8) -> Seq<u8> {
    Seq::new(
        (argument as int % (MAX_BODY_BYTES + 1)) as nat,
        |i: int| ((pattern + i) % 256) as u8,
    )
}

/// Returns the body of a replacement.
pub fn body(argument: u16, pattern: u8) -> (r: Vec<u8>)
    ensures
        r@ == body_of(argument, pattern),
{
    let len: usize = argument as usize % (MAX_BODY_BYTES + 1);
    let mut r: Vec<u8> = Vec::new();
    let mut i: usize = 0;
    let ghost whole = body_of(argument, pattern);
    while i < len
        invariant
            i <= len,
            len <= MAX_BODY_BYTES,
            whole == body_of(argument, pattern),
            whole.len() == len,
            r@ == whole.take(i as int),
        decreases len - i,
    {
        r.push(((pattern as usize + i) % 256) as u8);
        proof {
            assert(whole.take(i + 1) =~= whole.take(i as int).push(whole[i as int]));
        }
        i = i + 1;
    }
    proof {
        assert(whole.take(len as int) =~= whole);
    }
    r
}

/// The bytes whose digest stands for a record in a trace.
pub open spec fn digested(revision: Seq<u8>, body: Seq<u8>, sequence_point: u64) -> Seq<u8> {
    bytes::le64(revision.len() as u64) + revision + bytes::le64(body.len() as u64) + body
        + bytes::le64(sequence_point)
}

/// Returns the digest that stands for a record in a trace.
pub fn digest_record(revision: &[u8], body: &[u8], sequence_point: u64) -> (r: [u8; 32])
    ensures
        r == crate::disk_cache::format::sha256(digested(revision@, body@, sequence_point)),
{
    let mut buf: Vec<u8> = bytes::to_le64(revision.len() as u64);
    bytes::append(&mut buf, revision);
    bytes::append(&mut buf, bytes::to_le64(body.len() as u64).as_slice());
    bytes::append(&mut buf, body);
    bytes::append(&mut buf, bytes::to_le64(sequence_point).as_slice());
    crate::disk_cache::format::sha256_digest(buf.as_slice())
}

/// A record that was handed to the cache.
#[derive(Debug)]
pub struct KnownRecord {
    /// The database identity.
    pub identity: u8,
    /// The modeled path.
    pub path: u8,
    /// The revision.
    pub revision: Vec<u8>,
    /// The body.
    pub body: Vec<u8>,
    /// The sequence point.
    pub sequence_point: u64,
}

/// A record of these values was handed to the cache.
pub open spec fn was_admitted(
    known: Seq<KnownRecord>,
    identity: u8,
    path: u8,
    revision: Seq<u8>,
    body: Seq<u8>,
    sequence_point: u64,
) -> bool {
    exists|i: int|
        {
            &&& 0 <= i < known.len()
            &&& (#[trigger] known[i]).identity == identity
            &&& known[i].path == path
            &&& known[i].revision@ == revision
            &&& known[i].body@ == body
            &&& known[i].sequence_point == sequence_point
        }
}

/// A record with this sequence point was handed to the cache.
pub open spec fn point_admitted(known: Seq<KnownRecord>, identity: u8, point: u64) -> bool {
    exists|i: int|
        0 <= i < known.len() && (#[trigger] known[i]).identity == identity
            && known[i].sequence_point == point
}

/// What an oracle found wrong.
#[derive(Clone, Copy, Debug, PartialEq, Eq, Structural)]
pub enum Violation {
    /// The cache recovered a sequence point that was never admitted.
    UnknownSequencePoint,
    /// The cache returned a fabricated or mixed record.
    FabricatedRecord,
}

/// The harness's oracle and trace.
#[derive(Debug)]
pub struct HarnessState {
    identity: u8,
    next_sequence_point: u64,
    known: Vec<KnownRecord>,
    events: Vec<DiskCacheEvent>,
}

/// The harness's oracle and trace.
pub struct HarnessView {
    /// The database identity whose cache is open.
    pub identity: u8,
    /// The next sequence point to give out.
    pub next_sequence_point: u64,
    /// The records handed to the cache.
    pub known: Seq<KnownRecord>,
    /// The trace.
    pub events: Seq<DiskCacheEvent>,
}

impl View for HarnessState {
    type V = HarnessView;

    closed spec fn view(&self) -> HarnessView {
        HarnessView {
            identity: self.identity,
            next_sequence_point: self.next_sequence_point,
            known: self.known@,
            events: self.events@,
        }
    }
}

impl HarnessState {
    /// Starts with nothing admitted.
    pub fn new() -> (r: Self)
        ensures
            r@ == (HarnessView {
                identity: 0,
                next_sequence_point: 1,
                known: Seq::empty(),
                events: Seq::empty(),
            }),
    {
        HarnessState {
            identity: 0,
            next_sequence_point: 1,
            known: Vec::new(),
            events: Vec::new(),
        }
    }

    /// Records that the cache of an identity was opened. A recovered sequence
    /// point must be that of a record handed to it.
    pub fn opened(&mut self, identity: u8, enabled: bool, recovered: Option<u64>) -> (r: Result<
        (),
        Violation,
    >)
        ensures
            if recovered is Some && !point_admitted(
                old(self)@.known,
                identity,
                recovered->Some_0,
            ) {
                &&& r == Err::<(), Violation>(Violation::UnknownSequencePoint)
                &&& final(self)@ == (HarnessView { identity, ..old(self)@ })
            } else {
                &&& r is Ok
                &&& final(self)@ == (HarnessView {
                    identity,
                    events: old(self)@.events.push(
                        DiskCacheEvent::Opened {
                            identity,
                            enabled,
                            last_sequence_point: recovered,
                        },
                    ),
                    ..old(self)@
                })
            },
    {
        self.identity = identity;
        if let Some(point) = recovered {
            let mut found = false;
            let mut i: usize = 0;
            while i < self.known.len()
                invariant
                    i <= self.known@.len(),
                    found == exists|j: int|
                        0 <= j < i && (#[trigger] self.known@[j]).identity == identity
                            && self.known@[j].sequence_point == point,
                decreases self.known@.len() - i,
            {
                if self.known[i].identity == identity && self.known[i].sequence_point == point {
                    found = true;
                }
                i = i + 1;
            }
            if !found {
                return Err(Violation::UnknownSequencePoint);
            }
        }
        self.events.push(
            DiskCacheEvent::Opened { identity, enabled, last_sequence_point: recovered },
        );
        Ok(())
    }

    /// Makes the record of a replacement, which counts as admitted from now on.
    pub fn take_record(&mut self, command: Command) -> (r: (Vec<u8>, Vec<u8>, u64))
        ensures
            r.0@ == bytes::le64(r.2).push(command.pattern),
            r.1@ == body_of(command.argument, command.pattern),
            r.2 == old(self)@.next_sequence_point,
            final(self)@.identity == old(self)@.identity,
            final(self)@.events == old(self)@.events,
            final(self)@.next_sequence_point == if r.2 == u64::MAX {
                u64::MAX
            } else {
                (r.2 + 1) as u64
            },
            final(self)@.known.len() == old(self)@.known.len() + 1,
            final(self)@.known.drop_last() == old(self)@.known,
            final(self)@.known.last().identity == old(self)@.identity,
            final(self)@.known.last().path == command.path,
            final(self)@.known.last().revision@ == r.0@,
            final(self)@.known.last().body@ == r.1@,
            final(self)@.known.last().sequence_point == r.2,
    {
        let sequence_point: u64 = self.next_sequence_point;
        self.next_sequence_point = self.next_sequence_point.saturating_add(1);
        let made = revision(sequence_point, command.pattern);
        let content = body(command.argument, command.pattern);
        let ghost before = self.known@;
        self.known.push(
            KnownRecord {
                identity: self.identity,
                path: command.path,
                revision: bytes::copy(made.as_slice()),
                body: bytes::copy(content.as_slice()),
                sequence_point,
            },
        );
        proof {
            assert(self.known@.drop_last() =~= before);
        }
        (made, content, sequence_point)
    }

    /// Records the result of a lookup. A returned record must be one that was
    /// handed to the cache for this identity and path, unmixed.
    pub fn looked_up(
        &mut self,
        command: Command,
        record: Option<(Vec<u8>, Vec<u8>, u64)>,
    ) -> (r: Result<(), Violation>)
        ensures
            if record is Some && !was_admitted(
                old(self)@.known,
                old(self)@.identity,
                command.path,
                record->Some_0.0@,
                record->Some_0.1@,
                record->Some_0.2,
            ) {
                &&& r == Err::<(), Violation>(Violation::FabricatedRecord)
                &&& final(self)@ == old(self)@
            } else {
                &&& r is Ok
                &&& final(self)@ == (HarnessView {
                    events: old(self)@.events.push(
                        DiskCacheEvent::Lookup {
                            identity: old(self)@.identity,
                            path: command.path,
                            record_digest: match record {
                                Some((revision, body, point)) => Some(
                                    crate::disk_cache::format::sha256(digested(revision@, body@, point)),
                                ),
                                None => None,
                            },
                        },
                    ),
                    ..old(self)@
                })
            },
    {
        let record_digest = match &record {
            None => None,
            Some((revision, body, point)) => {
                let mut found = false;
                let mut i: usize = 0;
                while i < self.known.len()
                    invariant
                        i <= self.known@.len(),
                        found == exists|j: int|
                            {
                                &&& 0 <= j < i
                                &&& (#[trigger] self.known@[j]).identity == self.identity
                                &&& self.known@[j].path == command.path
                                &&& self.known@[j].revision@ == revision@
                                &&& self.known@[j].body@ == body@
                                &&& self.known@[j].sequence_point == *point
                            },
                    decreases self.known@.len() - i,
                {
                    let known = &self.known[i];
                    if known.identity == self.identity && known.path == command.path
                        && bytes::same(known.revision.as_slice(), revision.as_slice())
                        && bytes::same(known.body.as_slice(), body.as_slice())
                        && known.sequence_point == *point {
                        found = true;
                    }
                    i = i + 1;
                }
                if !found {
                    return Err(Violation::FabricatedRecord);
                }
                Some(digest_record(revision.as_slice(), body.as_slice(), *point))
            },
        };
        self.events.push(
            DiskCacheEvent::Lookup { identity: self.identity, path: command.path, record_digest },
        );
        Ok(())
    }

    /// Records the state of the cache after an operation.
    pub fn push_state(&mut self, kind: CommandKind, enabled: bool)
        ensures
            final(self)@ == (HarnessView {
                events: old(self)@.events.push(
                    DiskCacheEvent::State { operation: code_of(kind), enabled },
                ),
                ..old(self)@
            }),
    {
        self.events.push(DiskCacheEvent::State { operation: kind.operation_code(), enabled });
    }

    /// Returns the trace.
    pub fn into_events(self) -> (r: Vec<DiskCacheEvent>)
        ensures
            r@ == self@.events,
    {
        self.events
    }
}

/// Returns the durable byte that a command damages, and the mask; an empty
/// container has none.
pub fn damage(command: Command, durable_len: u64) -> (r: Option<(u64, u8)>)
    ensures
        match r {
            None => durable_len == 0,
            Some((offset, mask)) => {
                &&& durable_len > 0
                &&& offset == (command.argument * 257 + command.path) % durable_len as int
                &&& mask == command.pattern | 1
            },
        },
{
    if durable_len == 0 {
        return None;
    }
    let scaled: u64 = command.argument as u64 * 257 + command.path as u64;
    Some((scaled % durable_len, command.pattern | 1))
}

} // verus!
