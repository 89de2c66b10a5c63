//! How a table is put into a message.

use vstd::prelude::*;

verus! {

/// A text within the fences of a code block.
pub open spec fn code_block_of(content: Seq<char>) -> Seq<char> {
    "```\n"@ + content + "\n```"@
}

/// A table under its heading, within a code block.
pub open spec fn table_message_of(table: Seq<char>, heading: Seq<char>) -> Seq<char> {
    heading + "\n"@ + code_block_of(table)
}

/// Puts a text within the fences of a code block, so that it is shown in a
/// fixed-width font.
pub fn wrap_in_code_block(content: &str) -> (block: String)
    ensures
        block@ == code_block_of(content@),
{
    let mut block: String = String::from_str("```\n");
    block.append(content);
    block.append("\n```");
    block
}

/// Puts a heading above a table, and the table within a code block.
pub fn format_table(table: &str, heading: &str) -> (message: String)
    ensures
        message@ == table_message_of(table@, heading@),
{
    let block: String = wrap_in_code_block(table);
    let mut message: String = String::from_str(heading);
    message.append("\n");
    message.append(block.as_str());
    assert(message@ =~= table_message_of(table@, heading@));
    message
}

} // verus!
