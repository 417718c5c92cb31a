use vstd::prelude::*;
use vstd::string::StringExecFns;

verus! {

/// The line for the pair `a`, `b`, with its line break.
pub open spec fn want_line(a: Seq<char>, b: Seq<char>) -> Seq<char> {
    "For want of a "@ + a + " the "@ + b + " was lost.\n"@
}

/// The lines for the first `n` neighbouring pairs of `items`.
pub open spec fn want_lines(items: Seq<&str>, n: int) -> Seq<char>
    decreases n,
{
    if n <= 0 {
        Seq::<char>::empty()
    } else {
        want_lines(items, n - 1) + want_line(items[n - 1]@, items[n]@)
    }
}

/// The whole proverb: a line for each neighbouring pair, then the closing
/// line for the first item; nothing for no items.
pub open spec fn proverb(items: Seq<&str>) -> Seq<char> {
    if items.len() == 0 {
        Seq::<char>::empty()
    } else {
        want_lines(items, items.len() - 1) + "And all for the want of a "@ + items[0]@ + "."@
    }
}

/// Builds the proverb for the chain of items.
pub fn build_proverb(list: &[&str]) -> (r: String)
    ensures
        r@ == proverb(list@),
{
    if list.len() == 0 {
        return String::new();
    }
    let mut result = String::new();
    let mut index: usize = 0;
    while index < list.len() - 1
        invariant
            list@.len() > 0,
            index <= list@.len() - 1,
            result@ == want_lines(list@, index as int),
        decreases list.len() - 1 - index,
    {
        result.append("For want of a ");
        result.append(list[index]);
        result.append(" the ");
        result.append(list[index + 1]);
        result.append(" was lost.\n");
        assert(result@ =~= want_lines(list@, index + 1));
        index = index + 1;
    }
    result.append("And all for the want of a ");
    result.append(list[0]);
    result.append(".");
    assert(result@ =~= proverb(list@));
    result
}

} // verus!
