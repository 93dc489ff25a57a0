//! The fixed tables of the renderer: script letters and named symbols.

use vstd::prelude::*;

use crate::chars::str_eq;

verus! {

/// The superscript form of `c`, where Unicode has one.
pub open spec fn superscript_of(c: char) -> Option<char> {
    match c {

        '0' => Some('⁰'),
        '1' => Some('¹'),
        '2' => Some('²'),
        '3' => Some('³'),
        '4' => Some('⁴'),
        '5' => Some('⁵'),
        '6' => Some('⁶'),
        '7' => Some('⁷'),
        '8' => Some('⁸'),
        '9' => Some('⁹'),
        '+' => Some('⁺'),
        '-' => Some('⁻'),
        '=' => Some('⁼'),
        '(' => Some('⁽'),
        ')' => Some('⁾'),
        'a' => Some('ᵃ'),
        'b' => Some('ᵇ'),
        'c' => Some('ᶜ'),
        'd' => Some('ᵈ'),
        'e' => Some('ᵉ'),
        'f' => Some('ᶠ'),
        'g' => Some('ᵍ'),
        'h' => Some('ʰ'),
        'i' => Some('ⁱ'),
        'j' => Some('ʲ'),
        'k' => Some('ᵏ'),
        'l' => Some('ˡ'),
        'm' => Some('ᵐ'),
        'n' => Some('ⁿ'),
        'o' => Some('ᵒ'),
        'p' => Some('ᵖ'),
        'r' => Some('ʳ'),
        's' => Some('ˢ'),
        't' => Some('ᵗ'),
        'u' => Some('ᵘ'),
        'v' => Some('ᵛ'),
        'w' => Some('ʷ'),
        'x' => Some('ˣ'),
        'y' => Some('ʸ'),
        'z' => Some('ᶻ'),
        _ => None,
    }
}

/// The subscript form of `c`, where Unicode has one.
pub open spec fn subscript_of(c: char) -> Option<char> {
    match c {

        '0' => Some('₀'),
        '1' => Some('₁'),
        '2' => Some('₂'),
        '3' => Some('₃'),
        '4' => Some('₄'),
        '5' => Some('₅'),
        '6' => Some('₆'),
        '7' => Some('₇'),
        '8' => Some('₈'),
        '9' => Some('₉'),
        '+' => Some('₊'),
        '-' => Some('₋'),
        '=' => Some('₌'),
        '(' => Some('₍'),
        ')' => Some('₎'),
        'a' => Some('ₐ'),
        'e' => Some('ₑ'),
        'h' => Some('ₕ'),
        'i' => Some('ᵢ'),
        'j' => Some('ⱼ'),
        'k' => Some('ₖ'),
        'l' => Some('ₗ'),
        'm' => Some('ₘ'),
        'n' => Some('ₙ'),
        'o' => Some('ₒ'),
        'p' => Some('ₚ'),
        'r' => Some('ᵣ'),
        's' => Some('ₛ'),
        't' => Some('ₜ'),
        'u' => Some('ᵤ'),
        'v' => Some('ᵥ'),
        'x' => Some('ₓ'),
        _ => None,
    }
}

/// The script form of `c`: superscript when `sup` holds, subscript otherwise.
pub open spec fn script_of(c: char, sup: bool) -> Option<char> {
    if sup {
        superscript_of(c)
    } else {
        subscript_of(c)
    }
}

/// Maps `c` to its superscript (`sup`) or subscript form.
pub fn script_char(c: char, sup: bool) -> (r: Option<char>)
    ensures
        r == script_of(c, sup),
{
    if sup {
        match c {

            '0' => Some('⁰'),
            '1' => Some('¹'),
            '2' => Some('²'),
            '3' => Some('³'),
            '4' => Some('⁴'),
            '5' => Some('⁵'),
            '6' => Some('⁶'),
            '7' => Some('⁷'),
            '8' => Some('⁸'),
            '9' => Some('⁹'),
            '+' => Some('⁺'),
            '-' => Some('⁻'),
            '=' => Some('⁼'),
            '(' => Some('⁽'),
            ')' => Some('⁾'),
            'a' => Some('ᵃ'),
            'b' => Some('ᵇ'),
            'c' => Some('ᶜ'),
            'd' => Some('ᵈ'),
            'e' => Some('ᵉ'),
            'f' => Some('ᶠ'),
            'g' => Some('ᵍ'),
            'h' => Some('ʰ'),
            'i' => Some('ⁱ'),
            'j' => Some('ʲ'),
            'k' => Some('ᵏ'),
            'l' => Some('ˡ'),
            'm' => Some('ᵐ'),
            'n' => Some('ⁿ'),
            'o' => Some('ᵒ'),
            'p' => Some('ᵖ'),
            'r' => Some('ʳ'),
            's' => Some('ˢ'),
            't' => Some('ᵗ'),
            'u' => Some('ᵘ'),
            'v' => Some('ᵛ'),
            'w' => Some('ʷ'),
            'x' => Some('ˣ'),
            'y' => Some('ʸ'),
            'z' => Some('ᶻ'),
            _ => None,
        }
    } else {
        match c {

            '0' => Some('₀'),
            '1' => Some('₁'),
            '2' => Some('₂'),
            '3' => Some('₃'),
            '4' => Some('₄'),
            '5' => Some('₅'),
            '6' => Some('₆'),
            '7' => Some('₇'),
            '8' => Some('₈'),
            '9' => Some('₉'),
            '+' => Some('₊'),
            '-' => Some('₋'),
            '=' => Some('₌'),
            '(' => Some('₍'),
            ')' => Some('₎'),
            'a' => Some('ₐ'),
            'e' => Some('ₑ'),
            'h' => Some('ₕ'),
            'i' => Some('ᵢ'),
            'j' => Some('ⱼ'),
            'k' => Some('ₖ'),
            'l' => Some('ₗ'),
            'm' => Some('ₘ'),
            'n' => Some('ₙ'),
            'o' => Some('ₒ'),
            'p' => Some('ₚ'),
            'r' => Some('ᵣ'),
            's' => Some('ₛ'),
            't' => Some('ₜ'),
            'u' => Some('ᵤ'),
            'v' => Some('ᵥ'),
            'x' => Some('ₓ'),
            _ => None,
        }
    }
}

/// The character that a TeX command without arguments names, such as `alpha` for α.
pub open spec fn symbol_of(name: Seq<char>) -> Option<Seq<char>> {
    if name == "alpha"@ {
        Some("α"@)
    } else if name == "beta"@ {
        Some("β"@)
    } else if name == "gamma"@ {
        Some("γ"@)
    } else if name == "delta"@ {
        Some("δ"@)
    } else if name == "epsilon"@ {
        Some("ϵ"@)
    } else if name == "varepsilon"@ {
        Some("ε"@)
    } else if name == "zeta"@ {
        Some("ζ"@)
    } else if name == "eta"@ {
        Some("η"@)
    } else if name == "theta"@ {
        Some("θ"@)
    } else if name == "vartheta"@ {
        Some("ϑ"@)
    } else if name == "iota"@ {
        Some("ι"@)
    } else if name == "kappa"@ {
        Some("κ"@)
    } else if name == "lambda"@ {
        Some("λ"@)
    } else if name == "mu"@ {
        Some("μ"@)
    } else if name == "nu"@ {
        Some("ν"@)
    } else if name == "xi"@ {
        Some("ξ"@)
    } else if name == "pi"@ {
        Some("π"@)
    } else if name == "rho"@ {
        Some("ρ"@)
    } else if name == "sigma"@ {
        Some("σ"@)
    } else if name == "tau"@ {
        Some("τ"@)
    } else if name == "upsilon"@ {
        Some("υ"@)
    } else if name == "phi"@ {
        Some("ϕ"@)
    } else if name == "varphi"@ {
        Some("φ"@)
    } else if name == "chi"@ {
        Some("χ"@)
    } else if name == "psi"@ {
        Some("ψ"@)
    } else if name == "omega"@ {
        Some("ω"@)
    } else if name == "Gamma"@ {
        Some("Γ"@)
    } else if name == "Delta"@ {
        Some("Δ"@)
    } else if name == "Theta"@ {
        Some("Θ"@)
    } else if name == "Lambda"@ {
        Some("Λ"@)
    } else if name == "Xi"@ {
        Some("Ξ"@)
    } else if name == "Pi"@ {
        Some("Π"@)
    } else if name == "Sigma"@ {
        Some("Σ"@)
    } else if name == "Upsilon"@ {
        Some("Υ"@)
    } else if name == "Phi"@ {
        Some("Φ"@)
    } else if name == "Psi"@ {
        Some("Ψ"@)
    } else if name == "Omega"@ {
        Some("Ω"@)
    } else if name == "sum"@ {
        Some("∑"@)
    } else if name == "prod"@ {
        Some("∏"@)
    } else if name == "int"@ {
        Some("∫"@)
    } else if name == "infty"@ {
        Some("∞"@)
    } else if name == "partial"@ {
        Some("∂"@)
    } else if name == "nabla"@ {
        Some("∇"@)
    } else if name == "pm"@ {
        Some("±"@)
    } else if name == "mp"@ {
        Some("∓"@)
    } else if name == "times"@ {
        Some("×"@)
    } else if name == "cdot"@ {
        Some("·"@)
    } else if name == "div"@ {
        Some("÷"@)
    } else if name == "le"@ || name == "leq"@ {
        Some("≤"@)
    } else if name == "ge"@ || name == "geq"@ {
        Some("≥"@)
    } else if name == "ne"@ || name == "neq"@ {
        Some("≠"@)
    } else if name == "approx"@ {
        Some("≈"@)
    } else if name == "equiv"@ {
        Some("≡"@)
    } else if name == "in"@ {
        Some("∈"@)
    } else if name == "notin"@ {
        Some("∉"@)
    } else if name == "subset"@ {
        Some("⊂"@)
    } else if name == "subseteq"@ {
        Some("⊆"@)
    } else if name == "cup"@ {
        Some("∪"@)
    } else if name == "cap"@ {
        Some("∩"@)
    } else if name == "emptyset"@ {
        Some("∅"@)
    } else if name == "forall"@ {
        Some("∀"@)
    } else if name == "exists"@ {
        Some("∃"@)
    } else if name == "to"@ || name == "rightarrow"@ {
        Some("→"@)
    } else if name == "leftarrow"@ {
        Some("←"@)
    } else if name == "Rightarrow"@ {
        Some("⇒"@)
    } else if name == "Leftrightarrow"@ {
        Some("⇔"@)
    } else if name == "ldots"@ || name == "dots"@ {
        Some("…"@)
    } else if name == "cdots"@ {
        Some("⋯"@)
    } else {
        None
    }
}

/// The view of an optional string.
pub open spec fn opt_str_view(r: Option<&str>) -> Option<Seq<char>> {
    match r {
        Some(s) => Some(s@),
        None => None,
    }
}

/// The character that the TeX command `name` stands for, if it is one of the known symbols.
pub fn symbol(name: &str) -> (r: Option<&'static str>)
    ensures
        opt_str_view(r) == symbol_of(name@),
{
    if str_eq(name, "alpha") {
        Some("α")
    } else if str_eq(name, "beta") {
        Some("β")
    } else if str_eq(name, "gamma") {
        Some("γ")
    } else if str_eq(name, "delta") {
        Some("δ")
    } else if str_eq(name, "epsilon") {
        Some("ϵ")
    } else if str_eq(name, "varepsilon") {
        Some("ε")
    } else if str_eq(name, "zeta") {
        Some("ζ")
    } else if str_eq(name, "eta") {
        Some("η")
    } else if str_eq(name, "theta") {
        Some("θ")
    } else if str_eq(name, "vartheta") {
        Some("ϑ")
    } else if str_eq(name, "iota") {
        Some("ι")
    } else if str_eq(name, "kappa") {
        Some("κ")
    } else if str_eq(name, "lambda") {
        Some("λ")
    } else if str_eq(name, "mu") {
        Some("μ")
    } else if str_eq(name, "nu") {
        Some("ν")
    } else if str_eq(name, "xi") {
        Some("ξ")
    } else if str_eq(name, "pi") {
        Some("π")
    } else if str_eq(name, "rho") {
        Some("ρ")
    } else if str_eq(name, "sigma") {
        Some("σ")
    } else if str_eq(name, "tau") {
        Some("τ")
    } else if str_eq(name, "upsilon") {
        Some("υ")
    } else if str_eq(name, "phi") {
        Some("ϕ")
    } else if str_eq(name, "varphi") {
        Some("φ")
    } else if str_eq(name, "chi") {
        Some("χ")
    } else if str_eq(name, "psi") {
        Some("ψ")
    } else if str_eq(name, "omega") {
        Some("ω")
    } else if str_eq(name, "Gamma") {
        Some("Γ")
    } else if str_eq(name, "Delta") {
        Some("Δ")
    } else if str_eq(name, "Theta") {
        Some("Θ")
    } else if str_eq(name, "Lambda") {
        Some("Λ")
    } else if str_eq(name, "Xi") {
        Some("Ξ")
    } else if str_eq(name, "Pi") {
        Some("Π")
    } else if str_eq(name, "Sigma") {
        Some("Σ")
    } else if str_eq(name, "Upsilon") {
        Some("Υ")
    } else if str_eq(name, "Phi") {
        Some("Φ")
    } else if str_eq(name, "Psi") {
        Some("Ψ")
    } else if str_eq(name, "Omega") {
        Some("Ω")
    } else if str_eq(name, "sum") {
        Some("∑")
    } else if str_eq(name, "prod") {
        Some("∏")
    } else if str_eq(name, "int") {
        Some("∫")
    } else if str_eq(name, "infty") {
        Some("∞")
    } else if str_eq(name, "partial") {
        Some("∂")
    } else if str_eq(name, "nabla") {
        Some("∇")
    } else if str_eq(name, "pm") {
        Some("±")
    } else if str_eq(name, "mp") {
        Some("∓")
    } else if str_eq(name, "times") {
        Some("×")
    } else if str_eq(name, "cdot") {
        Some("·")
    } else if str_eq(name, "div") {
        Some("÷")
    } else if str_eq(name, "le") || str_eq(name, "leq") {
        Some("≤")
    } else if str_eq(name, "ge") || str_eq(name, "geq") {
        Some("≥")
    } else if str_eq(name, "ne") || str_eq(name, "neq") {
        Some("≠")
    } else if str_eq(name, "approx") {
        Some("≈")
    } else if str_eq(name, "equiv") {
        Some("≡")
    } else if str_eq(name, "in") {
        Some("∈")
    } else if str_eq(name, "notin") {
        Some("∉")
    } else if str_eq(name, "subset") {
        Some("⊂")
    } else if str_eq(name, "subseteq") {
        Some("⊆")
    } else if str_eq(name, "cup") {
        Some("∪")
    } else if str_eq(name, "cap") {
        Some("∩")
    } else if str_eq(name, "emptyset") {
        Some("∅")
    } else if str_eq(name, "forall") {
        Some("∀")
    } else if str_eq(name, "exists") {
        Some("∃")
    } else if str_eq(name, "to") || str_eq(name, "rightarrow") {
        Some("→")
    } else if str_eq(name, "leftarrow") {
        Some("←")
    } else if str_eq(name, "Rightarrow") {
        Some("⇒")
    } else if str_eq(name, "Leftrightarrow") {
        Some("⇔")
    } else if str_eq(name, "ldots") || str_eq(name, "dots") {
        Some("…")
    } else if str_eq(name, "cdots") {
        Some("⋯")
    } else {
        None
    }
}

} // verus!
