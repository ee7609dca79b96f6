//! Symbols: the names that a program binds and mentions.
use vstd::prelude::*;
use vstd::string::StringExecFns;

verus! {

/// The module that a symbol belongs to.
#[derive(Clone, Copy, Debug, PartialEq, Eq)]
pub struct ModuleId(pub u32);

/// The position of a name among the names of its module.
#[derive(Clone, Copy, Debug, PartialEq, Eq)]
pub struct IdentId(pub u32);

/// A name in a program: its module in the low half of the bits, its position among the names
/// of that module in the high half.
#[derive(Clone, Copy, Debug, PartialEq, Eq)]
pub struct Symbol {
    pub bits: u64,
}

impl Symbol {
    /// The symbol of a name of a module.
    pub open spec fn spec_new(module_id: ModuleId, ident_id: IdentId) -> Symbol {
        Symbol { bits: (ident_id.0 * 0x1_0000_0000 + module_id.0) as u64 }
    }

    pub fn new(module_id: ModuleId, ident_id: IdentId) -> (symbol: Symbol)
        ensures
            symbol == Symbol::spec_new(module_id, ident_id),
            symbol.bits == ident_id.0 * 0x1_0000_0000 + module_id.0,
    {
        Symbol { bits: ident_id.0 as u64 * 0x1_0000_0000 + module_id.0 as u64 }
    }

    /// The module that the symbol belongs to.
    pub open spec fn spec_module_id(self) -> ModuleId {
        ModuleId((self.bits % 0x1_0000_0000) as u32)
    }

    pub fn module_id(self) -> (module_id: ModuleId)
        ensures
            module_id == self.spec_module_id(),
    {
        ModuleId((self.bits % 0x1_0000_0000) as u32)
    }

    /// The position of the symbol among the names of its module.
    pub open spec fn spec_ident_id(self) -> IdentId {
        IdentId((self.bits / 0x1_0000_0000) as u32)
    }

    pub fn ident_id(self) -> (ident_id: IdentId)
        ensures
            ident_id == self.spec_ident_id(),
    {
        IdentId((self.bits / 0x1_0000_0000) as u32)
    }
}

/// A symbol gives back the module and the position that it was made of, so different names
/// have different symbols.
pub proof fn symbol_parts_come_back(module_id: ModuleId, ident_id: IdentId)
    ensures
        Symbol::spec_new(module_id, ident_id).spec_module_id() == module_id,
        Symbol::spec_new(module_id, ident_id).spec_ident_id() == ident_id,
{
}

/// The names of a module, in the order in which they were added.
#[derive(Debug)]
pub struct IdentIds {
    names: Vec<String>,
}

impl View for IdentIds {
    type V = Seq<Seq<char>>;

    closed spec fn view(&self) -> Seq<Seq<char>> {
        self.names@.map_values(|name: String| name@)
    }
}

impl IdentIds {
    /// A module without names.
    pub fn new() -> (ident_ids: IdentIds)
        ensures
            ident_ids@ == Seq::<Seq<char>>::empty(),
    {
        let ident_ids = IdentIds { names: Vec::new() };
        assert(ident_ids@ =~= Seq::<Seq<char>>::empty());
        ident_ids
    }

    /// How many names the module has.
    pub fn len(&self) -> (len: usize)
        ensures
            len == self@.len(),
    {
        self.names.len()
    }

    /// The name at a position.
    pub fn get_name(&self, ident_id: IdentId) -> (name: Option<&str>)
        ensures
            name is Some <==> ident_id.0 < self@.len(),
            name is Some ==> name->0@ == self@[ident_id.0 as int],
    {
        let index = ident_id.0 as usize;
        if index < self.names.len() {
            Some(self.names[index].as_str())
        } else {
            None
        }
    }

    /// Adds a name, also where an equal one is there already, and returns its position.
    pub fn add_str(&mut self, ident_name: &str) -> (ident_id: IdentId)
        requires
            old(self)@.len() <= u32::MAX,
        ensures
            final(self)@ == old(self)@.push(ident_name@),
            ident_id.0 == old(self)@.len(),
    {
        let position = self.names.len() as u32;
        self.names.push(ident_name.to_owned());
        assert(self@ =~= old(self)@.push(ident_name@));
        IdentId(position)
    }
}

/// The decimal digits of a number, without leading zeros.
pub open spec fn decimal(n: nat) -> Seq<char>
    decreases n,
{
    if n < 10 {
        seq![('0' as u32 + n) as char]
    } else {
        decimal(n / 10).push(('0' as u32 + n % 10) as char)
    }
}

/// The name of the symbol that stands for a field of a struct.
pub open spec fn field_name(index: nat) -> Seq<char> {
    "field_val_"@ + decimal(index)
}

/// The digit of a number below ten.
fn digit(n: usize) -> (text: &'static str)
    requires
        n < 10,
    ensures
        text@ == decimal(n as nat),
{
    proof {
        reveal_strlit("0");
        reveal_strlit("1");
        reveal_strlit("2");
        reveal_strlit("3");
        reveal_strlit("4");
        reveal_strlit("5");
        reveal_strlit("6");
        reveal_strlit("7");
        reveal_strlit("8");
        reveal_strlit("9");
    }
    let text = match n {
        0 => "0",
        1 => "1",
        2 => "2",
        3 => "3",
        4 => "4",
        5 => "5",
        6 => "6",
        7 => "7",
        8 => "8",
        _ => "9",
    };
    assert(text@ =~= decimal(n as nat));
    text
}

/// Appends the decimal digits of a number to a text.
fn append_decimal(text: &mut String, n: usize)
    ensures
        final(text)@ == old(text)@ + decimal(n as nat),
    decreases n,
{
    if n < 10 {
        text.append(digit(n));
    } else {
        append_decimal(text, n / 10);
        text.append(digit(n % 10));
        assert(text@ =~= old(text)@ + decimal(n as nat));
    }
}

/// Writes the name of the symbol that stands for a field of a struct.
pub(crate) fn format_field_name(index: usize) -> (name: String)
    ensures
        name@ == field_name(index as nat),
{
    let mut name = "field_val_".to_owned();
    append_decimal(&mut name, index);
    name
}

} // verus!
