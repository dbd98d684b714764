//! Key sequences written by name: `"ESCAPE,COLON"` is the bytes the escape
//! key sends followed by those of the colon key.
use vstd::prelude::*;

use crate::text::{chars_of, push_char};

verus! {

/// The parts of `s` between commas, as `str::split(',')` gives them: one
/// more part than there are commas, empty parts included.
pub open spec fn comma_parts(s: Seq<char>) -> Seq<Seq<char>>
    decreases s.len(),
{
    if s.len() == 0 {
        seq![Seq::<char>::empty()]
    } else {
        let before = comma_parts(s.drop_last());
        if s.last() == ',' {
            before.push(Seq::<char>::empty())
        } else {
            before.update(before.len() - 1, before.last().push(s.last()))
        }
    }
}

/// The bytes the key called `name` sends, from the first entry of `table`
/// with that name.
pub open spec fn key_bytes(table: Seq<(Seq<char>, Seq<u8>)>, name: Seq<char>) -> Option<Seq<u8>>
    decreases table.len(),
{
    if table.len() == 0 {
        None
    } else if table[0].0 == name {
        Some(table[0].1)
    } else {
        key_bytes(table.drop_first(), name)
    }
}

/// The bytes the keys called `names` send one after another, or `None`
/// when one of the names is not in `table`.
pub open spec fn keys_bytes(table: Seq<(Seq<char>, Seq<u8>)>, names: Seq<Seq<char>>) -> Option<Seq<u8>>
    decreases names.len(),
{
    if names.len() == 0 {
        Some(Seq::<u8>::empty())
    } else {
        match (keys_bytes(table, names.drop_last()), key_bytes(table, names.last())) {
            (Some(a), Some(b)) => Some(a + b),
            _ => None,
        }
    }
}

/// A key table as names and byte sequences.
pub open spec fn table_view(table: Seq<(String, Vec<u8>)>) -> Seq<(Seq<char>, Seq<u8>)> {
    table.map_values(|e: (String, Vec<u8>)| (e.0@, e.1@))
}

/// Looks the key called `name` up in `table`.
fn lookup_key(table: &Vec<(String, Vec<u8>)>, name: &String) -> (r: Option<Vec<u8>>)
    ensures
        match key_bytes(table_view(table@), name@) {
            Some(b) => r matches Some(v) && v@ == b,
            None => r is None,
        },
{
    let ghost view = table_view(table@);
    proof {
        assert(view.subrange(0, view.len() as int) =~= view);
    }
    let mut i: usize = 0;
    while i < table.len()
        invariant
            i <= table@.len(),
            view == table_view(table@),
            key_bytes(view.subrange(i as int, view.len() as int), name@) == key_bytes(view, name@),
        decreases table@.len() - i,
    {
        let ghost rest = view.subrange(i as int, view.len() as int);
        proof {
            assert(rest[0] == (table@[i as int].0@, table@[i as int].1@));
            assert(rest.drop_first() =~= view.subrange(i + 1, view.len() as int));
        }
        if table[i].0 == *name {
            return Some(table[i].1.clone());
        }
        i += 1;
    }
    proof {
        assert(view.subrange(i as int, view.len() as int) =~= Seq::<(Seq<char>, Seq<u8>)>::empty());
    }
    None
}

/// Appends `tail` to `out`.
fn append_bytes(out: &mut Vec<u8>, tail: &Vec<u8>)
    ensures
        final(out)@ == old(out)@ + tail@,
{
    let mut j: usize = 0;
    while j < tail.len()
        invariant
            j <= tail@.len(),
            out@ == old(out)@ + tail@.subrange(0, j as int),
        decreases tail@.len() - j,
    {
        out.push(tail[j]);
        j += 1;
        proof {
            assert(tail@.subrange(0, j as int) =~= tail@.subrange(0, j - 1).push(tail@[j - 1]));
        }
    }
    proof {
        assert(tail@.subrange(0, tail@.len() as int) =~= tail@);
    }
}

/// The bytes the comma-separated key names in `names` send, one key after
/// another, or `None` when a name is not in `table`.
pub fn key_sequence(names: &str, table: &Vec<(String, Vec<u8>)>) -> (r: Option<Vec<u8>>)
    ensures
        match keys_bytes(table_view(table@), comma_parts(names@)) {
            Some(b) => r matches Some(v) && v@ == b,
            None => r is None,
        },
{
    let ghost view = table_view(table@);
    let chars = chars_of(names);
    let ghost s = names@;
    let mut done: Option<Vec<u8>> = Some(Vec::new());
    let mut word = String::new();
    let mut i: usize = 0;
    proof {
        assert(s.subrange(0, 0) =~= Seq::<char>::empty());
        assert(comma_parts(Seq::<char>::empty()).drop_last() =~= Seq::<Seq<char>>::empty());
    }
    while i < chars.len()
        invariant
            i <= chars@.len() == s.len(),
            chars@ == s,
            view == table_view(table@),
            word@ == comma_parts(s.subrange(0, i as int)).last(),
            comma_parts(s.subrange(0, i as int)).len() > 0,
            match keys_bytes(view, comma_parts(s.subrange(0, i as int)).drop_last()) {
                Some(b) => done matches Some(v) && v@ == b,
                None => done is None,
            },
        decreases s.len() - i,
    {
        let c = chars[i];
        let ghost before = comma_parts(s.subrange(0, i as int));
        proof {
            assert(s.subrange(0, i + 1).drop_last() =~= s.subrange(0, i as int));
            assert(s.subrange(0, i + 1).last() == c);
        }
        if c == ',' {
            let found = lookup_key(table, &word);
            let ghost after = comma_parts(s.subrange(0, i + 1));
            proof {
                assert(after == before.push(Seq::<char>::empty()));
                assert(after.drop_last() =~= before);
                assert(before.drop_last().push(before.last()) =~= before);
            }
            done = match (done, found) {
                (Some(mut acc), Some(bytes)) => {
                    append_bytes(&mut acc, &bytes);
                    Some(acc)
                },
                _ => None,
            };
            word = String::new();
        } else {
            push_char(&mut word, c);
            let ghost after = comma_parts(s.subrange(0, i + 1));
            proof {
                assert(after == before.update(before.len() - 1, before.last().push(c)));
                assert(after.drop_last() =~= before.drop_last());
            }
        }
        i += 1;
    }
    proof {
        assert(s.subrange(0, s.len() as int) =~= s);
        let parts = comma_parts(s);
        assert(parts.drop_last().push(parts.last()) =~= parts);
    }
    let found = lookup_key(table, &word);
    match (done, found) {
        (Some(mut acc), Some(bytes)) => {
            append_bytes(&mut acc, &bytes);
            Some(acc)
        },
        _ => None,
    }
}


/// The keys a terminal sends, by name, and the bytes each sends: control
/// characters, arrows and delete, digits, punctuation and letters.
pub open spec fn default_keys() -> Seq<(Seq<char>, Seq<u8>)> {
    key_block_0() + key_block_1() + key_block_2() + key_block_3() + key_block_4() + key_block_5()
}

/// Part 1 of `default_keys`.
pub open spec fn key_block_0() -> Seq<(Seq<char>, Seq<u8>)> {
    seq![
        ("BACKSPACE"@, seq![127u8]),
        ("TAB"@, seq![9u8]),
        ("LINE_FEED"@, seq![10u8]),
        ("RETURN"@, seq![13u8]),
        ("ESCAPE"@, seq![27u8]),
        ("ARROW_UP"@, seq![27u8, 91u8, 65u8]),
        ("ARROW_LEFT"@, seq![27u8, 91u8, 68u8]),
        ("ARROW_DOWN"@, seq![27u8, 91u8, 66u8]),
        ("ARROW_RIGHT"@, seq![27u8, 91u8, 67u8]),
        ("DELETE"@, seq![27u8, 91u8, 51u8, 126u8]),
        ("NULL"@, seq![0u8]),
        ("STX"@, seq![1u8]),
        ("SOT"@, seq![2u8]),
        ("ETX"@, seq![3u8]),
        ("EOT"@, seq![4u8]),
        ("ENQ"@, seq![5u8]),
        ("ACK"@, seq![6u8]),
        ("BELL"@, seq![7u8]),
        ("VTAB"@, seq![11u8]),
        ("FORM_FEED"@, seq![12u8]),
        ("SHIFT_OUT"@, seq![14u8]),
        ("SHIFT_IN"@, seq![15u8]),
    ]
}

/// Part 2 of `default_keys`.
pub open spec fn key_block_1() -> Seq<(Seq<char>, Seq<u8>)> {
    seq![
        ("DATA_LINK_ESCAPE"@, seq![16u8]),
        ("XON"@, seq![17u8]),
        ("CTRL+R"@, seq![18u8]),
        ("XOFF"@, seq![19u8]),
        ("DC4"@, seq![20u8]),
        ("NAK"@, seq![21u8]),
        ("SYN"@, seq![22u8]),
        ("ETB"@, seq![23u8]),
        ("CANCEL"@, seq![24u8]),
        ("EM"@, seq![25u8]),
        ("SUB"@, seq![26u8]),
        ("FILE_SEPARATOR"@, seq![28u8]),
        ("GROUP_SEPARATOR"@, seq![29u8]),
        ("RECORD_SEPARATOR"@, seq![30u8]),
        ("UNITS_EPARATOR"@, seq![31u8]),
        ("ONE"@, seq![49u8]),
        ("TWO"@, seq![50u8]),
        ("THREE"@, seq![51u8]),
        ("FOUR"@, seq![52u8]),
        ("FIVE"@, seq![53u8]),
        ("SIX"@, seq![54u8]),
        ("SEVEN"@, seq![55u8]),
    ]
}

/// Part 3 of `default_keys`.
pub open spec fn key_block_2() -> Seq<(Seq<char>, Seq<u8>)> {
    seq![
        ("EIGHT"@, seq![56u8]),
        ("NINE"@, seq![57u8]),
        ("ZERO"@, seq![48u8]),
        ("BANG"@, seq![33u8]),
        ("AT"@, seq![64u8]),
        ("OCTOTHORPE"@, seq![35u8]),
        ("DOLLAR"@, seq![36u8]),
        ("PERCENT"@, seq![37u8]),
        ("CARET"@, seq![94u8]),
        ("AMPERSAND"@, seq![38u8]),
        ("ASTERISK"@, seq![42u8]),
        ("PARENTHESIS_OPEN"@, seq![40u8]),
        ("PARENTHESIS_CLOSE"@, seq![41u8]),
        ("BRACKET_OPEN"@, seq![91u8]),
        ("BRACKET_CLOSE"@, seq![93u8]),
        ("BRACE_OPEN"@, seq![123u8]),
        ("BRACE_CLOSE"@, seq![125u8]),
        ("BAR"@, seq![124u8]),
        ("BACKSLASH"@, seq![92u8]),
        ("COLON"@, seq![58u8]),
        ("SEMICOLON"@, seq![59u8]),
        ("QUOTE"@, seq![34u8]),
    ]
}

/// Part 4 of `default_keys`.
pub open spec fn key_block_3() -> Seq<(Seq<char>, Seq<u8>)> {
    seq![
        ("APOSTROPHE"@, seq![39u8]),
        ("LESSTHAN"@, seq![60u8]),
        ("GREATERTHAN"@, seq![62u8]),
        ("COMMA"@, seq![44u8]),
        ("PERIOD"@, seq![46u8]),
        ("SLASH"@, seq![47u8]),
        ("QUESTIONMARK"@, seq![63u8]),
        ("DASH"@, seq![45u8]),
        ("UNDERSCORE"@, seq![95u8]),
        ("SPACE"@, seq![32u8]),
        ("PLUS"@, seq![43u8]),
        ("EQUALS"@, seq![61u8]),
        ("TILDE"@, seq![126u8]),
        ("BACKTICK"@, seq![96u8]),
        ("A_UPPER"@, seq![65u8]),
        ("B_UPPER"@, seq![66u8]),
        ("C_UPPER"@, seq![67u8]),
        ("D_UPPER"@, seq![68u8]),
        ("E_UPPER"@, seq![69u8]),
        ("F_UPPER"@, seq![70u8]),
        ("G_UPPER"@, seq![71u8]),
        ("H_UPPER"@, seq![72u8]),
    ]
}

/// Part 5 of `default_keys`.
pub open spec fn key_block_4() -> Seq<(Seq<char>, Seq<u8>)> {
    seq![
        ("I_UPPER"@, seq![73u8]),
        ("J_UPPER"@, seq![74u8]),
        ("K_UPPER"@, seq![75u8]),
        ("L_UPPER"@, seq![76u8]),
        ("M_UPPER"@, seq![77u8]),
        ("N_UPPER"@, seq![78u8]),
        ("O_UPPER"@, seq![79u8]),
        ("P_UPPER"@, seq![80u8]),
        ("Q_UPPER"@, seq![81u8]),
        ("R_UPPER"@, seq![82u8]),
        ("S_UPPER"@, seq![83u8]),
        ("T_UPPER"@, seq![84u8]),
        ("U_UPPER"@, seq![85u8]),
        ("V_UPPER"@, seq![86u8]),
        ("W_UPPER"@, seq![87u8]),
        ("X_UPPER"@, seq![88u8]),
        ("Y_UPPER"@, seq![89u8]),
        ("Z_UPPER"@, seq![90u8]),
        ("A_LOWER"@, seq![97u8]),
        ("B_LOWER"@, seq![98u8]),
        ("C_LOWER"@, seq![99u8]),
        ("D_LOWER"@, seq![100u8]),
    ]
}

/// Part 6 of `default_keys`.
pub open spec fn key_block_5() -> Seq<(Seq<char>, Seq<u8>)> {
    seq![
        ("E_LOWER"@, seq![101u8]),
        ("F_LOWER"@, seq![102u8]),
        ("G_LOWER"@, seq![103u8]),
        ("H_LOWER"@, seq![104u8]),
        ("I_LOWER"@, seq![105u8]),
        ("J_LOWER"@, seq![106u8]),
        ("K_LOWER"@, seq![107u8]),
        ("L_LOWER"@, seq![108u8]),
        ("M_LOWER"@, seq![109u8]),
        ("N_LOWER"@, seq![110u8]),
        ("O_LOWER"@, seq![111u8]),
        ("P_LOWER"@, seq![112u8]),
        ("Q_LOWER"@, seq![113u8]),
        ("R_LOWER"@, seq![114u8]),
        ("S_LOWER"@, seq![115u8]),
        ("T_LOWER"@, seq![116u8]),
        ("U_LOWER"@, seq![117u8]),
        ("V_LOWER"@, seq![118u8]),
        ("W_LOWER"@, seq![119u8]),
        ("X_LOWER"@, seq![120u8]),
        ("Y_LOWER"@, seq![121u8]),
        ("Z_LOWER"@, seq![122u8]),
    ]
}

fn key_bytes_of1(b0: u8) -> (v: Vec<u8>)
    ensures
        v@ == seq![b0],
{
    let mut v: Vec<u8> = Vec::new();
    v.push(b0);
    proof {
        assert(v@ =~= seq![b0]);
    }
    v
}

fn key_bytes_of3(b0: u8, b1: u8, b2: u8) -> (v: Vec<u8>)
    ensures
        v@ == seq![b0, b1, b2],
{
    let mut v: Vec<u8> = Vec::new();
    v.push(b0);
    v.push(b1);
    v.push(b2);
    proof {
        assert(v@ =~= seq![b0, b1, b2]);
    }
    v
}

fn key_bytes_of4(b0: u8, b1: u8, b2: u8, b3: u8) -> (v: Vec<u8>)
    ensures
        v@ == seq![b0, b1, b2, b3],
{
    let mut v: Vec<u8> = Vec::new();
    v.push(b0);
    v.push(b1);
    v.push(b2);
    v.push(b3);
    proof {
        assert(v@ =~= seq![b0, b1, b2, b3]);
    }
    v
}

fn push_key_block_0(table: &mut Vec<(String, Vec<u8>)>)
    ensures
        table_view(final(table)@) == table_view(old(table)@) + key_block_0(),
{
    let ghost start = table@;
    table.push(("BACKSPACE".to_owned(), key_bytes_of1(127)));
    table.push(("TAB".to_owned(), key_bytes_of1(9)));
    table.push(("LINE_FEED".to_owned(), key_bytes_of1(10)));
    table.push(("RETURN".to_owned(), key_bytes_of1(13)));
    table.push(("ESCAPE".to_owned(), key_bytes_of1(27)));
    table.push(("ARROW_UP".to_owned(), key_bytes_of3(27, 91, 65)));
    table.push(("ARROW_LEFT".to_owned(), key_bytes_of3(27, 91, 68)));
    table.push(("ARROW_DOWN".to_owned(), key_bytes_of3(27, 91, 66)));
    table.push(("ARROW_RIGHT".to_owned(), key_bytes_of3(27, 91, 67)));
    table.push(("DELETE".to_owned(), key_bytes_of4(27, 91, 51, 126)));
    table.push(("NULL".to_owned(), key_bytes_of1(0)));
    table.push(("STX".to_owned(), key_bytes_of1(1)));
    table.push(("SOT".to_owned(), key_bytes_of1(2)));
    table.push(("ETX".to_owned(), key_bytes_of1(3)));
    table.push(("EOT".to_owned(), key_bytes_of1(4)));
    table.push(("ENQ".to_owned(), key_bytes_of1(5)));
    table.push(("ACK".to_owned(), key_bytes_of1(6)));
    table.push(("BELL".to_owned(), key_bytes_of1(7)));
    table.push(("VTAB".to_owned(), key_bytes_of1(11)));
    table.push(("FORM_FEED".to_owned(), key_bytes_of1(12)));
    table.push(("SHIFT_OUT".to_owned(), key_bytes_of1(14)));
    table.push(("SHIFT_IN".to_owned(), key_bytes_of1(15)));
    proof {
        assert(table_view(table@) =~= table_view(start) + key_block_0());
    }
}

fn push_key_block_1(table: &mut Vec<(String, Vec<u8>)>)
    ensures
        table_view(final(table)@) == table_view(old(table)@) + key_block_1(),
{
    let ghost start = table@;
    table.push(("DATA_LINK_ESCAPE".to_owned(), key_bytes_of1(16)));
    table.push(("XON".to_owned(), key_bytes_of1(17)));
    table.push(("CTRL+R".to_owned(), key_bytes_of1(18)));
    table.push(("XOFF".to_owned(), key_bytes_of1(19)));
    table.push(("DC4".to_owned(), key_bytes_of1(20)));
    table.push(("NAK".to_owned(), key_bytes_of1(21)));
    table.push(("SYN".to_owned(), key_bytes_of1(22)));
    table.push(("ETB".to_owned(), key_bytes_of1(23)));
    table.push(("CANCEL".to_owned(), key_bytes_of1(24)));
    table.push(("EM".to_owned(), key_bytes_of1(25)));
    table.push(("SUB".to_owned(), key_bytes_of1(26)));
    table.push(("FILE_SEPARATOR".to_owned(), key_bytes_of1(28)));
    table.push(("GROUP_SEPARATOR".to_owned(), key_bytes_of1(29)));
    table.push(("RECORD_SEPARATOR".to_owned(), key_bytes_of1(30)));
    table.push(("UNITS_EPARATOR".to_owned(), key_bytes_of1(31)));
    table.push(("ONE".to_owned(), key_bytes_of1(49)));
    table.push(("TWO".to_owned(), key_bytes_of1(50)));
    table.push(("THREE".to_owned(), key_bytes_of1(51)));
    table.push(("FOUR".to_owned(), key_bytes_of1(52)));
    table.push(("FIVE".to_owned(), key_bytes_of1(53)));
    table.push(("SIX".to_owned(), key_bytes_of1(54)));
    table.push(("SEVEN".to_owned(), key_bytes_of1(55)));
    proof {
        assert(table_view(table@) =~= table_view(start) + key_block_1());
    }
}

fn push_key_block_2(table: &mut Vec<(String, Vec<u8>)>)
    ensures
        table_view(final(table)@) == table_view(old(table)@) + key_block_2(),
{
    let ghost start = table@;
    table.push(("EIGHT".to_owned(), key_bytes_of1(56)));
    table.push(("NINE".to_owned(), key_bytes_of1(57)));
    table.push(("ZERO".to_owned(), key_bytes_of1(48)));
    table.push(("BANG".to_owned(), key_bytes_of1(33)));
    table.push(("AT".to_owned(), key_bytes_of1(64)));
    table.push(("OCTOTHORPE".to_owned(), key_bytes_of1(35)));
    table.push(("DOLLAR".to_owned(), key_bytes_of1(36)));
    table.push(("PERCENT".to_owned(), key_bytes_of1(37)));
    table.push(("CARET".to_owned(), key_bytes_of1(94)));
    table.push(("AMPERSAND".to_owned(), key_bytes_of1(38)));
    table.push(("ASTERISK".to_owned(), key_bytes_of1(42)));
    table.push(("PARENTHESIS_OPEN".to_owned(), key_bytes_of1(40)));
    table.push(("PARENTHESIS_CLOSE".to_owned(), key_bytes_of1(41)));
    table.push(("BRACKET_OPEN".to_owned(), key_bytes_of1(91)));
    table.push(("BRACKET_CLOSE".to_owned(), key_bytes_of1(93)));
    table.push(("BRACE_OPEN".to_owned(), key_bytes_of1(123)));
    table.push(("BRACE_CLOSE".to_owned(), key_bytes_of1(125)));
    table.push(("BAR".to_owned(), key_bytes_of1(124)));
    table.push(("BACKSLASH".to_owned(), key_bytes_of1(92)));
    table.push(("COLON".to_owned(), key_bytes_of1(58)));
    table.push(("SEMICOLON".to_owned(), key_bytes_of1(59)));
    table.push(("QUOTE".to_owned(), key_bytes_of1(34)));
    proof {
        assert(table_view(table@) =~= table_view(start) + key_block_2());
    }
}

fn push_key_block_3(table: &mut Vec<(String, Vec<u8>)>)
    ensures
        table_view(final(table)@) == table_view(old(table)@) + key_block_3(),
{
    let ghost start = table@;
    table.push(("APOSTROPHE".to_owned(), key_bytes_of1(39)));
    table.push(("LESSTHAN".to_owned(), key_bytes_of1(60)));
    table.push(("GREATERTHAN".to_owned(), key_bytes_of1(62)));
    table.push(("COMMA".to_owned(), key_bytes_of1(44)));
    table.push(("PERIOD".to_owned(), key_bytes_of1(46)));
    table.push(("SLASH".to_owned(), key_bytes_of1(47)));
    table.push(("QUESTIONMARK".to_owned(), key_bytes_of1(63)));
    table.push(("DASH".to_owned(), key_bytes_of1(45)));
    table.push(("UNDERSCORE".to_owned(), key_bytes_of1(95)));
    table.push(("SPACE".to_owned(), key_bytes_of1(32)));
    table.push(("PLUS".to_owned(), key_bytes_of1(43)));
    table.push(("EQUALS".to_owned(), key_bytes_of1(61)));
    table.push(("TILDE".to_owned(), key_bytes_of1(126)));
    table.push(("BACKTICK".to_owned(), key_bytes_of1(96)));
    table.push(("A_UPPER".to_owned(), key_bytes_of1(65)));
    table.push(("B_UPPER".to_owned(), key_bytes_of1(66)));
    table.push(("C_UPPER".to_owned(), key_bytes_of1(67)));
    table.push(("D_UPPER".to_owned(), key_bytes_of1(68)));
    table.push(("E_UPPER".to_owned(), key_bytes_of1(69)));
    table.push(("F_UPPER".to_owned(), key_bytes_of1(70)));
    table.push(("G_UPPER".to_owned(), key_bytes_of1(71)));
    table.push(("H_UPPER".to_owned(), key_bytes_of1(72)));
    proof {
        assert(table_view(table@) =~= table_view(start) + key_block_3());
    }
}

fn push_key_block_4(table: &mut Vec<(String, Vec<u8>)>)
    ensures
        table_view(final(table)@) == table_view(old(table)@) + key_block_4(),
{
    let ghost start = table@;
    table.push(("I_UPPER".to_owned(), key_bytes_of1(73)));
    table.push(("J_UPPER".to_owned(), key_bytes_of1(74)));
    table.push(("K_UPPER".to_owned(), key_bytes_of1(75)));
    table.push(("L_UPPER".to_owned(), key_bytes_of1(76)));
    table.push(("M_UPPER".to_owned(), key_bytes_of1(77)));
    table.push(("N_UPPER".to_owned(), key_bytes_of1(78)));
    table.push(("O_UPPER".to_owned(), key_bytes_of1(79)));
    table.push(("P_UPPER".to_owned(), key_bytes_of1(80)));
    table.push(("Q_UPPER".to_owned(), key_bytes_of1(81)));
    table.push(("R_UPPER".to_owned(), key_bytes_of1(82)));
    table.push(("S_UPPER".to_owned(), key_bytes_of1(83)));
    table.push(("T_UPPER".to_owned(), key_bytes_of1(84)));
    table.push(("U_UPPER".to_owned(), key_bytes_of1(85)));
    table.push(("V_UPPER".to_owned(), key_bytes_of1(86)));
    table.push(("W_UPPER".to_owned(), key_bytes_of1(87)));
    table.push(("X_UPPER".to_owned(), key_bytes_of1(88)));
    table.push(("Y_UPPER".to_owned(), key_bytes_of1(89)));
    table.push(("Z_UPPER".to_owned(), key_bytes_of1(90)));
    table.push(("A_LOWER".to_owned(), key_bytes_of1(97)));
    table.push(("B_LOWER".to_owned(), key_bytes_of1(98)));
    table.push(("C_LOWER".to_owned(), key_bytes_of1(99)));
    table.push(("D_LOWER".to_owned(), key_bytes_of1(100)));
    proof {
        assert(table_view(table@) =~= table_view(start) + key_block_4());
    }
}

fn push_key_block_5(table: &mut Vec<(String, Vec<u8>)>)
    ensures
        table_view(final(table)@) == table_view(old(table)@) + key_block_5(),
{
    let ghost start = table@;
    table.push(("E_LOWER".to_owned(), key_bytes_of1(101)));
    table.push(("F_LOWER".to_owned(), key_bytes_of1(102)));
    table.push(("G_LOWER".to_owned(), key_bytes_of1(103)));
    table.push(("H_LOWER".to_owned(), key_bytes_of1(104)));
    table.push(("I_LOWER".to_owned(), key_bytes_of1(105)));
    table.push(("J_LOWER".to_owned(), key_bytes_of1(106)));
    table.push(("K_LOWER".to_owned(), key_bytes_of1(107)));
    table.push(("L_LOWER".to_owned(), key_bytes_of1(108)));
    table.push(("M_LOWER".to_owned(), key_bytes_of1(109)));
    table.push(("N_LOWER".to_owned(), key_bytes_of1(110)));
    table.push(("O_LOWER".to_owned(), key_bytes_of1(111)));
    table.push(("P_LOWER".to_owned(), key_bytes_of1(112)));
    table.push(("Q_LOWER".to_owned(), key_bytes_of1(113)));
    table.push(("R_LOWER".to_owned(), key_bytes_of1(114)));
    table.push(("S_LOWER".to_owned(), key_bytes_of1(115)));
    table.push(("T_LOWER".to_owned(), key_bytes_of1(116)));
    table.push(("U_LOWER".to_owned(), key_bytes_of1(117)));
    table.push(("V_LOWER".to_owned(), key_bytes_of1(118)));
    table.push(("W_LOWER".to_owned(), key_bytes_of1(119)));
    table.push(("X_LOWER".to_owned(), key_bytes_of1(120)));
    table.push(("Y_LOWER".to_owned(), key_bytes_of1(121)));
    table.push(("Z_LOWER".to_owned(), key_bytes_of1(122)));
    proof {
        assert(table_view(table@) =~= table_view(start) + key_block_5());
    }
}

/// The table of `default_keys`, to look key names up in.
pub fn default_key_table() -> (t: Vec<(String, Vec<u8>)>)
    ensures
        table_view(t@) == default_keys(),
{
    let mut table: Vec<(String, Vec<u8>)> = Vec::new();
    proof {
        assert(table_view(table@) =~= Seq::<(Seq<char>, Seq<u8>)>::empty());
    }
    push_key_block_0(&mut table);
    push_key_block_1(&mut table);
    push_key_block_2(&mut table);
    push_key_block_3(&mut table);
    push_key_block_4(&mut table);
    push_key_block_5(&mut table);
    proof {
        assert(table_view(table@) =~= default_keys());
    }
    table
}

} // verus!
