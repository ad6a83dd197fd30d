//! The listing of a catalog.
use vstd::prelude::*;
use vstd::string::*;
use crate::catalog::atoms::AtomArgumentSignature;
use crate::catalog::filters::filters_text;
use crate::catalog::rule::Catalog;
use crate::lists::group_take;
use crate::planning::arguments::bool_text;
use crate::text::{join, join_text, nat_text, usize_to_text, Render, Written};

verus! {

/// Each relation on a line of its own, with a mark.
pub open spec fn name_lines(names: Seq<Seq<char>>, is_core: Seq<bool>) -> Seq<char>
    decreases names.len(),
{
    if names.len() == 0 {
        Seq::empty()
    } else {
        name_lines(names.drop_last(), is_core) + "  - "@ + names.last() + (
        if is_core[names.len() - 1] {
            " (Core)\n"@
        } else {
            " (Non-Core)\n"@
        })
    }
}

/// Each relation on a line of its own.
pub open spec fn negated_lines(names: Seq<Seq<char>>) -> Seq<char>
    decreases names.len(),
{
    if names.len() == 0 {
        Seq::empty()
    } else {
        negated_lines(names.drop_last()) + "  - "@ + names.last() + "\n"@
    }
}

/// A position with its parts named.
pub open spec fn detail(s: AtomArgumentSignature) -> Seq<char> {
    "AtomArgumentSignature { atom_signature: AtomSignature { is_positive: "@ + bool_text(
        s.atom_signature.is_positive,
    ) + ", rhs_id: "@ + nat_text(s.atom_signature.rhs_id as nat) + " }, argument_id: "@ + nat_text(
        s.argument_id as nat,
    ) + " }"@
}

/// The arguments of an atom, each on a line of its own, in short or in detail.
pub open spec fn argument_lines(arguments: Seq<AtomArgumentSignature>, detailed: bool) -> Seq<char>
    decreases arguments.len(),
{
    if arguments.len() == 0 {
        Seq::empty()
    } else {
        argument_lines(arguments.drop_last(), detailed) + "    Argument Signature: "@ + (
        if detailed {
            detail(arguments.last())
        } else {
            arguments.last().text()
        }) + "\n"@
    }
}

/// Each atom with its arguments below it.
pub open spec fn atom_lines(
    atoms: Seq<Seq<AtomArgumentSignature>>,
    title: Seq<char>,
    detailed: bool,
) -> Seq<char>
    decreases atoms.len(),
{
    if atoms.len() == 0 {
        Seq::empty()
    } else {
        atom_lines(atoms.drop_last(), title, detailed) + title + argument_lines(
            atoms.last(),
            detailed,
        )
    }
}

pub open spec fn place_texts(places: Seq<Option<AtomArgumentSignature>>) -> Seq<Seq<char>> {
    Seq::new(
        places.len(),
        |i: int|
            match places[i] {
                Some(s) => s.text(),
                None => "None"@,
            },
    )
}

/// Each variable with where the atoms hold it.
pub open spec fn presence_lines(
    rows: Seq<(Seq<char>, Seq<Option<AtomArgumentSignature>>)>,
) -> Seq<char>
    decreases rows.len(),
{
    if rows.len() == 0 {
        Seq::empty()
    } else {
        presence_lines(rows.drop_last()) + "  Argument "@ + rows.last().0 + ": ["@ + join_text(
            place_texts(rows.last().1),
            ", "@,
        ) + "]\n"@
    }
}

/// Each position with the variable there.
pub open spec fn var_lines(pairs: Seq<(AtomArgumentSignature, Seq<char>)>) -> Seq<char>
    decreases pairs.len(),
{
    if pairs.len() == 0 {
        Seq::empty()
    } else {
        var_lines(pairs.drop_last()) + "  "@ + pairs.last().0.text() + " -> "@ + pairs.last().1
            + "\n"@
    }
}

/// The listing of a catalog.
pub open spec fn catalog_text(catalog: Catalog) -> Seq<char> {
    "Catalog for Rule: "@ + catalog.rule.deep_view().text() + "\n"@
        + "\nAtom Names (Core/Non-Core):\n"@ + name_lines(
        catalog.atom_names.deep_view(),
        catalog.is_core_atom_bitmap@,
    ) + "\nAtom Argument Signatures:\n"@ + atom_lines(
        catalog.atom_argument_signatures.deep_view(),
        "  Atom:\n"@,
        false,
    ) + "\nNegated Atom Names:\n"@ + negated_lines(catalog.negated_atom_names.deep_view())
        + "\nNegated Atom Argument Signatures:\n"@ + atom_lines(
        catalog.negated_atom_argument_signatures.deep_view(),
        "  Negated Atom:\n"@,
        true,
    ) + "\nSignature to Argument String Map:\n"@ + var_lines(
        catalog.signature_to_argument_str_map.deep_view(),
    ) + "\nArgument Presence Map:\n"@ + presence_lines(catalog.argument_presence_map.deep_view())
        + "\nBase Filters:\n"@ + "  "@ + filters_text(catalog.base_filters) + "\n"@
}

fn render_names(names: &Vec<String>, is_core: &Vec<bool>) -> (out: String)
    requires
        names@.len() == is_core@.len(),
    ensures
        out@ == name_lines(names.deep_view(), is_core@),
{
    broadcast use group_take;

    let ghost model = names.deep_view();
    let mut out = String::new();
    let mut i: usize = 0;
    while i < names.len()
        invariant
            i <= names.len(),
            names@.len() == is_core@.len(),
            model == names.deep_view(),
            out@ == name_lines(model.take(i as int), is_core@),
        decreases names.len() - i,
    {
        assert(model.take(i + 1).drop_last() == model.take(i as int));
        assert(model[i as int] == names@[i as int]@);
        out.append("  - ");
        out.append(names[i].as_str());
        out.append(if is_core[i] {
            " (Core)\n"
        } else {
            " (Non-Core)\n"
        });
        i += 1;
    }
    out
}

fn render_negated(names: &Vec<String>) -> (out: String)
    ensures
        out@ == negated_lines(names.deep_view()),
{
    broadcast use group_take;

    let ghost model = names.deep_view();
    let mut out = String::new();
    let mut i: usize = 0;
    while i < names.len()
        invariant
            i <= names.len(),
            model == names.deep_view(),
            out@ == negated_lines(model.take(i as int)),
        decreases names.len() - i,
    {
        assert(model.take(i + 1).drop_last() == model.take(i as int));
        assert(model[i as int] == names@[i as int]@);
        out.append("  - ");
        out.append(names[i].as_str());
        out.append("\n");
        i += 1;
    }
    out
}

fn render_detail(s: &AtomArgumentSignature) -> (out: String)
    ensures
        out@ == detail(*s),
{
    let mut out =
        "AtomArgumentSignature { atom_signature: AtomSignature { is_positive: ".to_owned();
    out.append(if s.atom_signature.is_positive {
        "true"
    } else {
        "false"
    });
    out.append(", rhs_id: ");
    out.append(usize_to_text(s.atom_signature.rhs_id).as_str());
    out.append(" }, argument_id: ");
    out.append(usize_to_text(s.argument_id).as_str());
    out.append(" }");
    out
}

fn render_arguments(arguments: &Vec<AtomArgumentSignature>, detailed: bool) -> (out: String)
    ensures
        out@ == argument_lines(arguments.deep_view(), detailed),
{
    broadcast use group_take;

    let ghost model = arguments.deep_view();
    let mut out = String::new();
    let mut i: usize = 0;
    while i < arguments.len()
        invariant
            i <= arguments.len(),
            model == arguments.deep_view(),
            out@ == argument_lines(model.take(i as int), detailed),
        decreases arguments.len() - i,
    {
        assert(model.take(i + 1).drop_last() == model.take(i as int));
        assert(model[i as int] == arguments@[i as int]);
        out.append("    Argument Signature: ");
        let text = if detailed {
            render_detail(&arguments[i])
        } else {
            arguments[i].to_string()
        };
        out.append(text.as_str());
        out.append("\n");
        i += 1;
    }
    out
}

fn render_atoms(atoms: &Vec<Vec<AtomArgumentSignature>>, title: &str, detailed: bool) -> (out:
    String)
    ensures
        out@ == atom_lines(atoms.deep_view(), title@, detailed),
{
    broadcast use group_take;

    let ghost model = atoms.deep_view();
    let mut out = String::new();
    let mut i: usize = 0;
    while i < atoms.len()
        invariant
            i <= atoms.len(),
            model == atoms.deep_view(),
            out@ == atom_lines(model.take(i as int), title@, detailed),
        decreases atoms.len() - i,
    {
        assert(model.take(i + 1).drop_last() == model.take(i as int));
        assert(model[i as int] == atoms@[i as int].deep_view());
        out.append(title);
        out.append(render_arguments(&atoms[i], detailed).as_str());
        i += 1;
    }
    out
}

fn render_places(places: &Vec<Option<AtomArgumentSignature>>) -> (out: String)
    ensures
        out@ == join_text(place_texts(places.deep_view()), ", "@),
{
    let ghost model = places.deep_view();
    let mut texts: Vec<String> = Vec::new();
    let mut i: usize = 0;
    while i < places.len()
        invariant
            i <= places.len(),
            model == places.deep_view(),
            texts.len() == i,
            forall|k: int| 0 <= k < i ==> (#[trigger] texts@[k])@ == place_texts(model)[k],
        decreases places.len() - i,
    {
        assert(model[i as int] == places@[i as int].deep_view());
        texts.push(match &places[i] {
            Some(s) => s.to_string(),
            None => "None".to_owned(),
        });
        i += 1;
    }
    assert(texts.deep_view() =~= place_texts(model));
    join(&texts, ", ")
}

fn render_presence(rows: &Vec<(String, Vec<Option<AtomArgumentSignature>>)>) -> (out: String)
    ensures
        out@ == presence_lines(rows.deep_view()),
{
    broadcast use group_take;

    let ghost model = rows.deep_view();
    let mut out = String::new();
    let mut i: usize = 0;
    while i < rows.len()
        invariant
            i <= rows.len(),
            model == rows.deep_view(),
            out@ == presence_lines(model.take(i as int)),
        decreases rows.len() - i,
    {
        assert(model.take(i + 1).drop_last() == model.take(i as int));
        assert(model[i as int] == rows@[i as int].deep_view());
        out.append("  Argument ");
        out.append(rows[i].0.as_str());
        out.append(": [");
        out.append(render_places(&rows[i].1).as_str());
        out.append("]\n");
        i += 1;
    }
    out
}

fn render_vars(pairs: &Vec<(AtomArgumentSignature, String)>) -> (out: String)
    ensures
        out@ == var_lines(pairs.deep_view()),
{
    broadcast use group_take;

    let ghost model = pairs.deep_view();
    let mut out = String::new();
    let mut i: usize = 0;
    while i < pairs.len()
        invariant
            i <= pairs.len(),
            model == pairs.deep_view(),
            out@ == var_lines(model.take(i as int)),
        decreases pairs.len() - i,
    {
        assert(model.take(i + 1).drop_last() == model.take(i as int));
        assert(model[i as int] == pairs@[i as int].deep_view());
        out.append("  ");
        out.append(pairs[i].0.to_string().as_str());
        out.append(" -> ");
        out.append(pairs[i].1.as_str());
        out.append("\n");
        i += 1;
    }
    out
}

impl Catalog {
    /// The listing of the catalog.
    pub fn to_string(&self) -> (out: String)
        requires
            self.wf(),
        ensures
            out@ == catalog_text(*self),
    {
        proof {
            self.lemma_parts();
        }
        let mut out = "Catalog for Rule: ".to_owned();
        out.append(self.rule.to_string().as_str());
        out.append("\n");
        out.append("\nAtom Names (Core/Non-Core):\n");
        out.append(render_names(&self.atom_names, &self.is_core_atom_bitmap).as_str());
        out.append("\nAtom Argument Signatures:\n");
        out.append(render_atoms(&self.atom_argument_signatures, "  Atom:\n", false).as_str());
        out.append("\nNegated Atom Names:\n");
        out.append(render_negated(&self.negated_atom_names).as_str());
        out.append("\nNegated Atom Argument Signatures:\n");
        out.append(
            render_atoms(
                &self.negated_atom_argument_signatures,
                "  Negated Atom:\n",
                true,
            ).as_str(),
        );
        out.append("\nSignature to Argument String Map:\n");
        out.append(render_vars(&self.signature_to_argument_str_map).as_str());
        out.append("\nArgument Presence Map:\n");
        out.append(render_presence(&self.argument_presence_map).as_str());
        out.append("\nBase Filters:\n");
        out.append("  ");
        out.append(self.base_filters.to_string().as_str());
        out.append("\n");
        out
    }
}

} // verus!
