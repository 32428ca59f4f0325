//! Operations records (monitoring and logging events) as entity attributes.
//! Usage ratios are stored as thousandths; the conversion from a ratio to
//! thousandths is done by the caller, which holds the ratio.

use vstd::prelude::*;
use crate::commands::{Attributes, LogLevel, WriteCommand};

verus! {

/// The name of a level, as it is stored.
pub open spec fn level_name(l: LogLevel) -> Seq<char> {
    match l {
        LogLevel::Info => "Info"@,
        LogLevel::Warn => "Warn"@,
        LogLevel::Error => "Error"@,
        LogLevel::Fatal => "Fatal"@,
        LogLevel::Debug => "Debug"@,
    }
}

impl LogLevel {
    /// The level's name.
    pub fn name(&self) -> (r: String)
        ensures
            r@ == level_name(*self),
    {
        match self {
            LogLevel::Info => "Info".to_string(),
            LogLevel::Warn => "Warn".to_string(),
            LogLevel::Error => "Error".to_string(),
            LogLevel::Fatal => "Fatal".to_string(),
            LogLevel::Debug => "Debug".to_string(),
        }
    }
}

/// A timestamp folded into 32 bits: its remainder by `u32::MAX`.
pub fn folded_timestamp(timestamp: u64) -> (r: u32)
    ensures
        r == timestamp % (u32::MAX as u64),
{
    (timestamp % (u32::MAX as u64)) as u32
}

/// The string and integer attributes of an operations record: `service`,
/// `node`, `level` and `message`; `timestamp` (folded into 32 bits),
/// `cpu_milli`, `mem_milli` and `response_time`.
pub fn ops_params(
    timestamp: u64,
    service: String,
    node: String,
    level: LogLevel,
    message: String,
    cpu_milli: u32,
    mem_milli: u32,
    response_time_ms: u32,
) -> (r: (Attributes<String>, Attributes<u32>))
    ensures
        r.0.wf(),
        r.1.wf(),
        r.0.view() == Map::<Seq<char>, Seq<char>>::empty().insert("service"@, service@).insert("node"@, node@).insert(
            "level"@,
            level_name(level),
        ).insert("message"@, message@),
        r.1.view() == Map::<Seq<char>, u32>::empty().insert("timestamp"@, (timestamp % (u32::MAX as u64)) as u32).insert(
            "cpu_milli"@,
            cpu_milli,
        ).insert("mem_milli"@, mem_milli).insert("response_time"@, response_time_ms),
{
    let mut attrs: Attributes<String> = Attributes::new();
    attrs.insert("service".to_string(), service);
    attrs.insert("node".to_string(), node);
    attrs.insert("level".to_string(), level.name());
    attrs.insert("message".to_string(), message);
    let mut ints: Attributes<u32> = Attributes::new();
    ints.insert("timestamp".to_string(), folded_timestamp(timestamp));
    ints.insert("cpu_milli".to_string(), cpu_milli);
    ints.insert("mem_milli".to_string(), mem_milli);
    ints.insert("response_time".to_string(), response_time_ms);
    (attrs, ints)
}

/// The insert of an operations record's attributes as entity `entity_id`.
pub fn ops_insert_command(entity_id: usize, params: (Attributes<String>, Attributes<u32>)) -> (c: WriteCommand)
    requires
        params.0.wf(),
        params.1.wf(),
    ensures
        c.wf(),
        c.view() == (crate::commands::CommandView::Insert {
            entity_id,
            attrs: (params.0.view(), params.1.view(), Map::<Seq<char>, Seq<u8>>::empty()),
        }),
{
    let (attributes, attributes_int) = params;
    WriteCommand::Insert { entity_id, attributes, attributes_int, attributes_blob: Attributes::new() }
}

} // verus!
