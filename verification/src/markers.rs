//! Gemma 4 channel markers, as they appear in decoded text.
use vstd::prelude::*;

verus! {

/// What opens a tool call, up to the tool's name.
pub const GEMMA4_TOOL_CALL_BEGIN: &'static str = "<|tool_call>call:";

/// What closes a tool call.
pub const GEMMA4_TOOL_CALL_END: &'static str = "<tool_call|>";

/// What shows that a tool call starts.
pub const GEMMA4_TOOL_CALL_TRIGGER: &'static str = "<|tool_call>";

/// What closes the thought channel.
pub const GEMMA4_REASONING_END: &'static str = "<channel|>";

/// What opens the thought channel.
pub const GEMMA4_THOUGHT_BEGIN: &'static str = "<|channel>thought\n";

/// The delimiter of string arguments: `key:<|"|>value<|"|>`.
pub const GEMMA4_STRING_DELIM: &'static str = "<|\"|>";

/// The markers are these texts, and the opener of a call is the trigger and `call:`.
pub proof fn law_markers()
    ensures
        GEMMA4_TOOL_CALL_BEGIN@ == GEMMA4_TOOL_CALL_TRIGGER@ + seq!['c', 'a', 'l', 'l', ':'],
        GEMMA4_TOOL_CALL_TRIGGER@ == seq!['<', '|', 't', 'o', 'o', 'l', '_', 'c', 'a', 'l', 'l', '>'],
        GEMMA4_TOOL_CALL_END@ == seq!['<', 't', 'o', 'o', 'l', '_', 'c', 'a', 'l', 'l', '|', '>'],
        GEMMA4_REASONING_END@ == seq!['<', 'c', 'h', 'a', 'n', 'n', 'e', 'l', '|', '>'],
        GEMMA4_THOUGHT_BEGIN@ == seq!['<', '|', 'c', 'h', 'a', 'n', 'n', 'e', 'l', '>'] + seq![
            't',
            'h',
            'o',
            'u',
            'g',
            'h',
            't',
            '\n',
        ],
        GEMMA4_STRING_DELIM@ == seq!['<', '|', '"', '|', '>'],
{
    reveal_strlit("<|tool_call>call:");
    reveal_strlit("<tool_call|>");
    reveal_strlit("<|tool_call>");
    reveal_strlit("<channel|>");
    reveal_strlit("<|channel>thought\n");
    reveal_strlit("<|\"|>");
}

} // verus!
