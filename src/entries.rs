use vstd::prelude::*;
use crate::ratio::{CalcError, Ratio, abs};
use crate::number::{
    digits_of, has_sign, padded_digits, parse_decimal, parse_spec, push_digits, push_padded,
    scan_decimal, unsigned_part,
};
use crate::eval::{display_spec, evaluate};

verus! {

/// The `k`-digit fraction `n`, trailing zeros dropped.
pub open spec fn trimmed_fraction(n: nat, k: nat) -> Seq<char>
    decreases k,
{
    if k > 0 && n % 10 == 0 {
        trimmed_fraction(n / 10, (k - 1) as nat)
    } else {
        padded_digits(n, k)
    }
}

/// The number literal `e` written anew with the opposite sign: a `-` exactly
/// where `e` had none, then the shortest decimal text of its magnitude (no
/// leading zeros, no trailing fractional zeros, no point where it is whole).
pub open spec fn negated_text(e: Seq<char>) -> Seq<char> {
    let d = scan_decimal(unsigned_part(e));
    let f = trimmed_fraction((d.digits % d.den) as nat, d.scale);
    (if has_sign(e) { Seq::<char>::empty() } else { seq!['-'] }) + digits_of((d.digits / d.den) as nat)
        + (if f.len() == 0 {
        Seq::<char>::empty()
    } else {
        seq!['.'] + f
    })
}

/// An entry after the sign key: a number is negated and written anew, a `+`
/// becomes `-` and the reverse, anything else stays.
pub open spec fn toggled_entry(e: Seq<char>) -> Seq<char> {
    match parse_spec(e) {
        Ok(_) => negated_text(e),
        Err(_) => if e == seq!['+'] {
            seq!['-']
        } else if e == seq!['-'] {
            seq!['+']
        } else {
            e
        },
    }
}

/// The entries after the sign key: only the last one changes.
pub open spec fn toggle_spec(entries: Seq<Seq<char>>) -> Seq<Seq<char>> {
    if entries.len() == 0 {
        entries
    } else {
        entries.update(entries.len() - 1, toggled_entry(entries.last()))
    }
}

/// All entries written one after another.
pub open spec fn joined(entries: Seq<Seq<char>>) -> Seq<char>
    decreases entries.len(),
{
    if entries.len() == 0 {
        Seq::<char>::empty()
    } else {
        joined(entries.drop_last()) + entries.last()
    }
}

/// The entries after one key of the calculator: `=` leaves the shown result
/// as the only entry, `C` clears, `+/-` toggles the last entry, and any other
/// label is appended.
pub open spec fn press_spec(entries: Seq<Seq<char>>, label: Seq<char>) -> Seq<Seq<char>> {
    if label == seq!['='] {
        seq![display_spec(joined(entries))]
    } else if label == seq!['C'] {
        Seq::<Seq<char>>::empty()
    } else if label == seq!['+', '/', '-'] {
        toggle_spec(entries)
    } else {
        entries.push(label)
    }
}

/// The labels typed since the last clear, each as one entry.
pub struct ClickedButtons {
    buttons: Vec<String>,
}

impl View for ClickedButtons {
    type V = Seq<Seq<char>>;

    closed spec fn view(&self) -> Seq<Seq<char>> {
        self.buttons@.map_values(|b: String| b@)
    }
}

impl Default for ClickedButtons {
    fn default() -> (r: ClickedButtons)
        ensures
            r@ == Seq::<Seq<char>>::empty(),
    {
        ClickedButtons::new()
    }
}

/// Tells whether two strings hold the same characters.
pub fn same_text(a: &str, b: &str) -> (r: bool)
    ensures
        r == (a@ == b@),
{
    let n = a.unicode_len();
    if n != b.unicode_len() {
        return false;
    }
    let mut i: usize = 0;
    while i < n
        invariant
            n == a@.len(),
            n == b@.len(),
            i <= n,
            forall|j: int| 0 <= j < i ==> a@[j] == b@[j],
        decreases n - i,
    {
        if a.get_char(i) != b.get_char(i) {
            return false;
        }
        i = i + 1;
    }
    assert(a@ =~= b@);
    true
}

fn negate_text(e: &Vec<char>, digits: u128, den: u128, scale: usize) -> (s: String)
    requires
        digits == scan_decimal(unsigned_part(e@)).digits,
        den == scan_decimal(unsigned_part(e@)).den,
        scale == scan_decimal(unsigned_part(e@)).scale,
        den > 0,
    ensures
        s@ == negated_text(e@),
{
    let whole = digits / den;
    let mut frac = digits % den;
    let mut k = scale;
    let ghost f = trimmed_fraction(frac as nat, k as nat);
    while k > 0 && frac % 10 == 0
        invariant
            trimmed_fraction(frac as nat, k as nat) == f,
        decreases k,
    {
        frac = frac / 10;
        k = k - 1;
    }
    let mut s = String::new();
    if !(e.len() > 0 && e[0] == '-') {
        s.push('-');
    }
    push_digits(&mut s, whole);
    if k > 0 {
        s.push('.');
        push_padded(&mut s, frac, k);
    }
    assert(f =~= padded_digits(frac as nat, k as nat));
    assert(k == 0 ==> padded_digits(frac as nat, k as nat) =~= Seq::<char>::empty());
    assert(k > 0 ==> padded_digits(frac as nat, k as nat).len() > 0);
    assert(s@ =~= negated_text(e@));
    s
}

fn toggled(e: &String) -> (r: String)
    ensures
        r@ == toggled_entry(e@),
{
    let n = e.as_str().unicode_len();
    let mut chars: Vec<char> = Vec::new();
    let mut i: usize = 0;
    while i < n
        invariant
            n == e@.len(),
            i <= n,
            chars@ == e@.take(i as int),
        decreases n - i,
    {
        chars.push(e.as_str().get_char(i));
        i = i + 1;
        assert(chars@ =~= e@.take(i as int));
    }
    assert(chars@ =~= e@);
    match parse_decimal(&chars) {
        Ok((_, digits, den, k)) => negate_text(&chars, digits, den, k),
        Err(_) => {
            assert(parse_spec(e@) is Err);
            let plus = "+";
            let minus = "-";
            proof {
                reveal_strlit("+");
                reveal_strlit("-");
            }
            assert(plus@ =~= seq!['+']);
            assert(minus@ =~= seq!['-']);
            if same_text(e.as_str(), plus) {
                String::from_str(minus)
            } else if same_text(e.as_str(), minus) {
                String::from_str(plus)
            } else {
                assert(e@ != seq!['+']);
                assert(e@ != seq!['-']);
                e.clone()
            }
        },
    }
}

/// Negates the last entry where it is a number, swaps a last `+` and `-`,
/// and leaves the entries as they are otherwise.
pub fn toggle_last_number_sign(clicked_buttons: &mut ClickedButtons)
    ensures
        final(clicked_buttons)@ == toggle_spec(old(clicked_buttons)@),
{
    let len = clicked_buttons.buttons.len();
    if len > 0 {
        let t = toggled(&clicked_buttons.buttons[len - 1]);
        clicked_buttons.buttons.set(len - 1, t);
        assert(clicked_buttons@ =~= toggle_spec(old(clicked_buttons)@));
    }
}

impl ClickedButtons {
    /// No entries.
    pub fn new() -> (r: ClickedButtons)
        ensures
            r@ == Seq::<Seq<char>>::empty(),
    {
        let r = ClickedButtons { buttons: Vec::new() };
        assert(r@ =~= Seq::<Seq<char>>::empty());
        r
    }

    /// The number of entries.
    pub fn len(&self) -> (r: usize)
        ensures
            r == self@.len(),
    {
        self.buttons.len()
    }

    /// The entry at `i`.
    pub fn entry(&self, i: usize) -> (r: String)
        requires
            i < self@.len(),
        ensures
            r@ == self@[i as int],
    {
        self.buttons[i].clone()
    }

    /// Appends one entry.
    pub fn push(&mut self, label: &str)
        ensures
            final(self)@ == old(self)@.push(label@),
    {
        self.buttons.push(String::from_str(label));
        assert(self@ =~= old(self)@.push(label@));
    }

    /// Removes every entry.
    pub fn clear(&mut self)
        ensures
            final(self)@ == Seq::<Seq<char>>::empty(),
    {
        self.buttons.clear();
        assert(self@ =~= Seq::<Seq<char>>::empty());
    }

    /// The entries written one after another: the expression typed so far.
    pub fn to_number_string(&self) -> (r: String)
        ensures
            r@ == joined(self@),
    {
        let mut r = String::new();
        let mut i: usize = 0;
        while i < self.buttons.len()
            invariant
                i <= self.buttons.len(),
                r@ == joined(self@.take(i as int)),
            decreases self.buttons.len() - i,
        {
            r.append(self.buttons[i].as_str());
            assert(self@.take(i + 1).drop_last() =~= self@.take(i as int));
            i = i + 1;
        }
        assert(self@.take(i as int) =~= self@);
        r
    }

    /// Handles one key of the calculator.
    pub fn press(&mut self, label: &str)
        ensures
            final(self)@ == press_spec(old(self)@, label@),
    {
        let eq = "=";
        let clear = "C";
        let sign = "+/-";
        proof {
            reveal_strlit("=");
            reveal_strlit("C");
            reveal_strlit("+/-");
        }
        assert(eq@ =~= seq!['=']);
        assert(clear@ =~= seq!['C']);
        assert(sign@ =~= seq!['+', '/', '-']);
        if same_text(label, eq) {
            let result = evaluate(self.to_number_string().as_str());
            self.clear();
            self.buttons.push(result);
            assert(self@ =~= seq![display_spec(joined(old(self)@))]);
        } else if same_text(label, clear) {
            self.clear();
        } else if same_text(label, sign) {
            toggle_last_number_sign(self);
        } else {
            self.push(label);
        }
    }
}

} // verus!
