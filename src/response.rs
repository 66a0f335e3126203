use vstd::prelude::*;
use crate::name_order::name_key;
use crate::record::{digits, encode_digits};

verus! {

/// `Series ` in ASCII.
pub open spec fn series_word() -> Seq<u8> {
    seq![83u8, 101u8, 114u8, 105u8, 101u8, 115u8, 32u8]
}

/// ` has ` in ASCII.
pub open spec fn has_word() -> Seq<u8> {
    seq![32u8, 104u8, 97u8, 115u8, 32u8]
}

/// ` values.` in ASCII.
pub open spec fn values_word() -> Seq<u8> {
    seq![32u8, 118u8, 97u8, 108u8, 117u8, 101u8, 115u8, 46u8]
}

/// `Administered value ` in ASCII.
pub open spec fn administered_word() -> Seq<u8> {
    seq![
        65u8, 100u8, 109u8, 105u8, 110u8, 105u8, 115u8, 116u8, 101u8, 114u8, 101u8, 100u8,
        32u8, 118u8, 97u8, 108u8, 117u8, 101u8, 32u8,
    ]
}

/// `, for parameter ` in ASCII.
pub open spec fn parameter_word() -> Seq<u8> {
    seq![
        44u8, 32u8, 102u8, 111u8, 114u8, 32u8, 112u8, 97u8, 114u8, 97u8, 109u8, 101u8,
        116u8, 101u8, 114u8, 32u8,
    ]
}

/// `, for time ` in ASCII.
pub open spec fn time_word() -> Seq<u8> {
    seq![44u8, 32u8, 102u8, 111u8, 114u8, 32u8, 116u8, 105u8, 109u8, 101u8, 32u8]
}

/// `Series <name> has <count> values.` in UTF-8.
pub open spec fn found_text(name: Seq<char>, count: nat) -> Seq<u8> {
    series_word() + name_key(name) + has_word() + digits(count) + values_word()
}

/// `Administered value <value>, for parameter <name>, for time <time>` in UTF-8.
pub open spec fn accepted_text(value_text: Seq<u8>, name: Seq<char>, time_text: Seq<char>) -> Seq<u8> {
    administered_word() + value_text + parameter_word() + name_key(name) + time_word() + name_key(
        time_text,
    )
}

pub(crate) fn push_all(out: &mut Vec<u8>, bytes: &[u8])
    ensures
        final(out)@ == old(out)@ + bytes@,
{
    let mut i: usize = 0;
    while i < bytes.len()
        invariant
            i <= bytes@.len(),
            out@ == old(out)@ + bytes@.take(i as int),
        decreases bytes@.len() - i,
    {
        out.push(bytes[i]);
        i = i + 1;
        assert(out@ =~= old(out)@ + bytes@.take(i as int));
    }
    assert(bytes@.take(i as int) =~= bytes@);
}

/// The body of the answer to a read of a known series.
pub fn found_body(name: &String, count: usize) -> (r: Vec<u8>)
    ensures
        r@ == found_text(name@, count as nat),
{
    let series: [u8; 7] = [83u8, 101u8, 114u8, 105u8, 101u8, 115u8, 32u8];
    let has: [u8; 5] = [32u8, 104u8, 97u8, 115u8, 32u8];
    let values: [u8; 8] = [32u8, 118u8, 97u8, 108u8, 117u8, 101u8, 115u8, 46u8];
    let mut out: Vec<u8> = Vec::new();
    push_all(&mut out, &series);
    push_all(&mut out, name.as_str().as_bytes());
    push_all(&mut out, &has);
    let count_digits = encode_digits(count as u64);
    push_all(&mut out, count_digits.as_slice());
    push_all(&mut out, &values);
    assert(series@ =~= series_word());
    assert(has@ =~= has_word());
    assert(values@ =~= values_word());
    assert(out@ =~= found_text(name@, count as nat));
    out
}

/// The body of the answer to an accepted write: the value as the client
/// sent it, the series name, and the point's timestamp written out.
pub fn accepted_body(value_text: &Vec<u8>, name: &String, time_text: &String) -> (r: Vec<u8>)
    ensures
        r@ == accepted_text(value_text@, name@, time_text@),
{
    let administered: [u8; 19] = [
        65u8, 100u8, 109u8, 105u8, 110u8, 105u8, 115u8, 116u8, 101u8, 114u8, 101u8, 100u8,
        32u8, 118u8, 97u8, 108u8, 117u8, 101u8, 32u8,
    ];
    let parameter: [u8; 16] = [
        44u8, 32u8, 102u8, 111u8, 114u8, 32u8, 112u8, 97u8, 114u8, 97u8, 109u8, 101u8,
        116u8, 101u8, 114u8, 32u8,
    ];
    let time: [u8; 11] = [44u8, 32u8, 102u8, 111u8, 114u8, 32u8, 116u8, 105u8, 109u8, 101u8, 32u8];
    let mut out: Vec<u8> = Vec::new();
    push_all(&mut out, &administered);
    push_all(&mut out, value_text.as_slice());
    push_all(&mut out, &parameter);
    push_all(&mut out, name.as_str().as_bytes());
    push_all(&mut out, &time);
    push_all(&mut out, time_text.as_str().as_bytes());
    assert(administered@ =~= administered_word());
    assert(parameter@ =~= parameter_word());
    assert(time@ =~= time_word());
    assert(out@ =~= accepted_text(value_text@, name@, time_text@));
    out
}

} // verus!
