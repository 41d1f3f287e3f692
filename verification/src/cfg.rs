//! Writer for the very basic `.cfg` format of `pyvenv.cfg`.

use vstd::prelude::*;
use vstd::string::StringExecFns;

verus! {

/// One line of a `.cfg` file: the key, ` = `, the value, a line feed.
pub open spec fn cfg_line(key: Seq<char>, value: Seq<char>) -> Seq<char> {
    key + seq![' ', '=', ' '] + value + seq!['\n']
}

/// The text of a `.cfg` file: one [`cfg_line`] per entry, in order.
pub open spec fn cfg_text(data: Seq<(Seq<char>, Seq<char>)>) -> Seq<char>
    decreases data.len(),
{
    if data.len() == 0 {
        Seq::empty()
    } else {
        cfg_text(data.drop_last()) + cfg_line(data.last().0, data.last().1)
    }
}

/// The entries of a slice of key and value, as text.
pub open spec fn entries(data: Seq<(&str, String)>) -> Seq<(Seq<char>, Seq<char>)> {
    Seq::new(data.len(), |i: int| (data[i].0@, data[i].1@))
}

/// Appends `data` to `f`, one `key = value` line per entry.
pub fn write_cfg(f: &mut String, data: &[(&str, String)])
    ensures
        final(f)@ == old(f)@ + cfg_text(entries(data@)),
{
    let mut i: usize = 0;
    assert(entries(data@).take(0).len() == 0);
    assert(f@ == old(f)@ + cfg_text(entries(data@).take(0)));
    while i < data.len()
        invariant
            i <= data.len(),
            f@ == old(f)@ + cfg_text(entries(data@).take(i as int)),
        decreases data.len() - i,
    {
        let ghost before = f@;
        f.append(data[i].0);
        f.append(" = ");
        f.append(data[i].1.as_str());
        f.append("\n");
        proof {
            reveal_strlit(" = ");
            reveal_strlit("\n");
            let e = entries(data@);
            let next = e.take(i + 1);
            assert(" = "@ == seq![' ', '=', ' ']);
            assert("\n"@ == seq!['\n']);
            assert(next.drop_last() == e.take(i as int));
            assert(next.last() == e[i as int]);
            assert(f@ == before + cfg_line(e[i as int].0, e[i as int].1));
            assert(cfg_text(next) == cfg_text(e.take(i as int)) + cfg_line(e[i as int].0, e[i as int].1));
        }
        i = i + 1;
    }
    assert(entries(data@).take(data@.len() as int) == entries(data@));
}

} // verus!
