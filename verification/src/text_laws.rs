//! What numbers written out as text guarantee.
use vstd::prelude::*;

use crate::machine::frame;
use crate::machine::tag;
use crate::machine::tag::{Pointer, Tag};
use crate::memory;
use crate::memory::AllocId;
use crate::stacked_borrows::diagnostics;
use crate::stacked_borrows::diagnostics::AccessSite;
use crate::stacked_borrows::item::{CallId, Item, PtrId, SbTag};
use crate::stacked_borrows::stack;
use crate::text;

verus! {

/// The number that a character stands for as a digit.
pub open spec fn digit_value(c: char) -> int {
    if '0' <= c && c <= '9' {
        c as int - '0' as int
    } else if 'a' <= c && c <= 'f' {
        10 + (c as int - 'a' as int)
    } else {
        -1
    }
}

/// The number that the digits stand for in the given base.
pub open spec fn value(digits: Seq<char>, base: int) -> int
    decreases digits.len(),
{
    if digits.len() == 0 {
        0
    } else {
        base * value(digits.drop_last(), base) + digit_value(digits.last())
    }
}

/// A number that is written out can be read again: its digits stand for it, each of them is one of
/// the base, and the first one is not a zero unless it is the only one.
pub proof fn law_written_number_can_be_read(n: nat, base: nat)
    requires
        2 <= base <= 16,
    ensures
        value(text::digits(n, base), base as int) == n,
        text::digits(n, base).len() > 0,
        text::digits(n, base).len() > 1 ==> text::digits(n, base)[0] != '0',
        forall|k: int|
            0 <= k < text::digits(n, base).len() ==> 0 <= digit_value(
                #[trigger] text::digits(n, base)[k],
            ) < base,
    decreases n,
{
    let written = text::digits(n, base);
    if n < base {
        assert(written =~= seq![text::digit_char(n)]);
        assert(written.drop_last() =~= Seq::<char>::empty());
        assert(value(written.drop_last(), base as int) == 0);
        assert(base * 0 == 0);
    } else {
        let high = (n / base) as nat;
        let low = (n % base) as nat;
        assert(0 < high < n && n == base * high + low && low < base) by (nonlinear_arith)
            requires
                2 <= base <= n,
                high == n / base,
                low == n % base,
        ;
        law_written_number_can_be_read(high, base);
        let front = text::digits(high, base);
        assert(written == front.push(text::digit_char(low)));
        assert(written.drop_last() =~= front);
        assert forall|k: int| 0 <= k < written.len() implies 0 <= digit_value(
            #[trigger] written[k],
        ) < base by {
            if k < front.len() {
                assert(written[k] == front[k]);
            }
        }
        if front.len() == 1 {
            assert(front[0] != '0') by {
                if front[0] == '0' {
                    assert(front.drop_last() =~= Seq::<char>::empty());
                    assert(value(front.drop_last(), base as int) == 0);
                    assert(base * 0 == 0);
                    assert(value(front, base as int) == 0);
                }
            }
        }
        assert(written[0] == front[0]);
    }
}

/// Different numbers are written differently.
pub proof fn law_numbers_are_told_apart(m: u64, n: u64)
    requires
        m != n,
    ensures
        text::decimal(m) != text::decimal(n),
        text::hexadecimal(m) != text::hexadecimal(n),
{
    law_written_number_can_be_read(m as nat, 10);
    law_written_number_can_be_read(n as nat, 10);
    law_written_number_can_be_read(m as nat, 16);
    law_written_number_can_be_read(n as nat, 16);
}

/// A tag that is written out is its number in angle brackets.
pub proof fn law_written_tag_can_be_read(id: PtrId)
    ensures
        ({
            let written = SbTag::Tagged(id).chars();
            let n = written.len() as int;
            &&& n >= 3
            &&& written[0] == '<' && written[n - 1] == '>'
            &&& value(written.subrange(1, n - 1), 10) == id
        }),
{
    reveal_strlit("<");
    reveal_strlit(">");
    law_written_number_can_be_read(id as nat, 10);
    let written = SbTag::Tagged(id).chars();
    assert(written.subrange(1, written.len() - 1) =~= text::decimal(id));
}

/// Different tags are written differently.
pub proof fn law_tags_are_told_apart(a: SbTag, b: SbTag)
    requires
        a != b,
    ensures
        a.chars() != b.chars(),
{
    reveal_strlit("<untagged>");
    match (a, b) {
        (SbTag::Tagged(m), SbTag::Tagged(n)) => {
            law_written_tag_can_be_read(m);
            law_written_tag_can_be_read(n);
        },
        (SbTag::Tagged(m), SbTag::Untagged) => {
            lemma_tag_starts_with_a_digit(m);
        },
        (SbTag::Untagged, SbTag::Tagged(n)) => {
            lemma_tag_starts_with_a_digit(n);
        },
        _ => {},
    }
}

proof fn lemma_tag_starts_with_a_digit(id: PtrId)
    ensures
        SbTag::Tagged(id).chars().len() >= 3,
        digit_value(SbTag::Tagged(id).chars()[1]) < 10,
        SbTag::Tagged(id).chars()[1] != 'u',
{
    reveal_strlit("<");
    reveal_strlit(">");
    law_written_number_can_be_read(id as nat, 10);
    assert(SbTag::Tagged(id).chars()[1] == text::decimal(id)[0]);
    assert(0 <= digit_value(text::decimal(id)[0]) < 10);
}

/// An allocation that is written out is its number behind a word, which is shorter in the alternate
/// form.
pub proof fn law_written_allocation_can_be_read(id: AllocId)
    ensures
        ({
            let long = memory::alloc_id_chars(id, false);
            let short = memory::alloc_id_chars(id, true);
            &&& long.len() > 5 && long.take(5) == "alloc"@
            &&& value(long.skip(5), 10) == id
            &&& short.len() > 1 && short.take(1) == "a"@
            &&& value(short.skip(1), 10) == id
        }),
{
    reveal_strlit("alloc");
    reveal_strlit("a");
    law_written_number_can_be_read(id as nat, 10);
    let long = memory::alloc_id_chars(id, false);
    let short = memory::alloc_id_chars(id, true);
    assert(long.take(5) =~= "alloc"@);
    assert(long.skip(5) =~= text::decimal(id));
    assert(short.take(1) =~= "a"@);
    assert(short.skip(1) =~= text::decimal(id));
}

/// A pointer that is written out starts with its address, goes on with its allocation in brackets,
/// and ends with its tag.
pub proof fn law_written_pointer_can_be_read(ptr: Pointer<Tag>, alternate: bool)
    ensures
        exists|address: Seq<char>|
            {
                &&& value(address, 16) == ptr.offset
                &&& tag::pointer_chars(ptr, alternate) == #[trigger] ("0x"@ + address) + "["@
                    + memory::alloc_id_chars(ptr.provenance.alloc_id, alternate) + "]"@
                    + ptr.provenance.sb.chars()
            },
{
    law_written_number_can_be_read(ptr.offset as nat, 16);
    let address = text::hexadecimal(ptr.offset);
    assert(tag::pointer_chars(ptr, alternate) == ("0x"@ + address) + "["@ + memory::alloc_id_chars(
        ptr.provenance.alloc_id,
        alternate,
    ) + "]"@ + ptr.provenance.sb.chars());
}

/// A printed stack is printed from the bottom up: one item more on top is printed behind the
/// others, with a comma between.
pub proof fn law_items_are_printed_in_order(s: Seq<Item>, item: Item)
    ensures
        stack::stack_chars(Seq::<Item>::empty()) == "["@ + "]"@,
        stack::stack_chars(seq![item]) == "["@ + stack::item_chars(item) + "]"@,
        s.len() > 0 ==> stack::stack_chars(s.push(item)) == "["@ + stack::listing(
            s,
            s.len() as int,
        ) + ", "@ + stack::item_chars(item) + "]"@,
{
    assert(stack::listing(Seq::<Item>::empty(), 0) =~= Seq::<char>::empty());
    assert("["@ + Seq::<char>::empty() =~= "["@);
    assert(stack::listing(seq![item], 0) =~= Seq::<char>::empty());
    assert(stack::listing(seq![item], 1) =~= stack::item_chars(item));
    if s.len() > 0 {
        let n = s.len() as int;
        let more = s.push(item);
        lemma_listing(s, item, n - 1);
        assert(stack::listing(more, n) =~= stack::listing(s, n) + ", "@);
        assert(stack::listing(more, n + 1) =~= stack::listing(more, n) + stack::item_chars(item));
        assert(stack::stack_chars(more) =~= "["@ + stack::listing(s, n) + ", "@ + stack::item_chars(
            item,
        ) + "]"@);
    }
}

proof fn lemma_listing(s: Seq<Item>, item: Item, n: int)
    requires
        n < s.len(),
    ensures
        stack::listing(s.push(item), n) == stack::listing(s, n),
    decreases n,
{
    if n > 0 {
        lemma_listing(s, item, n - 1);
    }
}

/// A location that is written out is its allocation, and its offset in brackets.
pub proof fn law_written_location_can_be_read(site: AccessSite)
    ensures
        exists|offset: Seq<char>|
            {
                &&& value(offset, 16) == site.offset
                &&& diagnostics::site_chars(site) == memory::alloc_id_chars(site.alloc_id, false)
                    + #[trigger] ("[0x"@ + offset) + "]"@
            },
{
    law_written_number_can_be_read(site.offset as nat, 16);
    let offset = text::hexadecimal(site.offset);
    assert(diagnostics::site_chars(site) =~= memory::alloc_id_chars(site.alloc_id, false) + (
    "[0x"@ + offset) + "]"@);
}

/// An item that is written out, in a message or in a stack, names what it permits, its tag, and the
/// call that protects it, if one does.
pub proof fn law_written_item_names_its_parts(item: Item)
    ensures
        ({
            let call = match item.protector {
                Some(call) => " (call "@ + text::decimal(call) + ")"@,
                None => Seq::empty(),
            };
            item.chars() == ("["@ + item.perm.chars()) + (" for "@ + item.tag.chars()) + (call
                + "]"@)
        }),
        ({
            let call = match item.protector {
                Some(call) => "[proc("@ + text::decimal(call) + ")]"@,
                None => Seq::empty(),
            };
            stack::item_chars(item) == item.perm.abbreviation() + (item.tag.chars() + call)
        }),
{
    let call = match item.protector {
        Some(call) => " (call "@ + text::decimal(call) + ")"@,
        None => Seq::empty(),
    };
    assert(item.chars() =~= ("["@ + item.perm.chars()) + (" for "@ + item.tag.chars()) + (call
        + "]"@));
    let call = match item.protector {
        Some(call) => "[proc("@ + text::decimal(call) + ")]"@,
        None => Seq::empty(),
    };
    assert(stack::item_chars(item) =~= item.perm.abbreviation() + (item.tag.chars() + call));
}

/// The data of a frame that is written out starts with the number of its call.
pub proof fn law_written_frame_names_its_call(call_id: CallId, caught: Option<Seq<char>>)
    ensures
        exists|number: Seq<char>, rest: Seq<char>|
            {
                &&& value(number, 10) == call_id
                &&& frame::frame_chars(call_id, caught) == #[trigger] ("FrameData { call_id: "@
                    + number + rest)
                &&& caught matches Some(shown) ==> rest == ", catch_unwind: Some("@ + shown
                    + ") }"@
                &&& caught is None ==> rest == ", catch_unwind: None }"@
            },
{
    reveal_strlit(", catch_unwind: ");
    reveal_strlit("Some(");
    reveal_strlit(")");
    reveal_strlit(" }");
    reveal_strlit("None");
    reveal_strlit(", catch_unwind: Some(");
    reveal_strlit(") }");
    reveal_strlit(", catch_unwind: None }");
    law_written_number_can_be_read(call_id as nat, 10);
    let number = text::decimal(call_id);
    let rest = match caught {
        Some(shown) => ", catch_unwind: Some("@ + shown + ") }"@,
        None => ", catch_unwind: None }"@,
    };
    assert(", catch_unwind: "@ + "Some("@ =~= ", catch_unwind: Some("@);
    assert(")"@ + " }"@ =~= ") }"@);
    assert(", catch_unwind: "@ + "None"@ + " }"@ =~= ", catch_unwind: None }"@);
    if let Some(shown) = caught {
        assert(frame::frame_chars(call_id, caught) =~= "FrameData { call_id: "@ + number + ((
        ", catch_unwind: "@ + "Some("@) + shown + (")"@ + " }"@)));
    } else {
        assert(frame::frame_chars(call_id, caught) =~= "FrameData { call_id: "@ + number + (
        ", catch_unwind: "@ + "None"@ + " }"@));
    }
    assert(frame::frame_chars(call_id, caught) == "FrameData { call_id: "@ + number + rest);
}

} // verus!
