//! How a governance proposal is shown.
use crate::text::{decimal, decimal_text, joined};
use vstd::prelude::*;
use vstd::string::*;

verus! {

/// What a proposal would do.
#[derive(Debug)]
pub enum ProposalAction {
    SetBaseFeePerByte(u64),
    SetDustThreshold(u64),
    SetGasPricePerFuel(u64),
    SetStakingCommissionBps(u64),
    SetEmissionApr(u64),
    ActivateAlgorithm { name: String, algorithm: u64 },
    DeprecateAlgorithm(u64),
    RetireAlgorithm(u64),
}

/// How much a proposal puts at stake.
#[derive(Clone, Copy, Debug, PartialEq, Eq)]
pub enum RiskTier {
    Low,
    Economic,
    Registry,
}

impl ProposalAction {
    /// What is said about the action.
    pub open spec fn said(&self) -> Seq<char> {
        match self {
            ProposalAction::SetBaseFeePerByte(v) => "Fijar fee base por byte = "@ + decimal(
                *v as nat,
            ),
            ProposalAction::SetDustThreshold(v) => "Fijar umbral de polvo = "@ + decimal(*v as nat),
            ProposalAction::SetGasPricePerFuel(v) => "Fijar precio de gas por fuel = "@ + decimal(
                *v as nat,
            ),
            ProposalAction::SetStakingCommissionBps(v) => "Fijar comisión de staking = "@ + decimal(
                *v as nat,
            ) + " bps"@,
            ProposalAction::SetEmissionApr(v) => "Fijar emisión (APR) = "@ + decimal(*v as nat)
                + " bps"@,
            ProposalAction::ActivateAlgorithm { name, algorithm } => "Activar algoritmo "@ + name@
                + " (id "@ + decimal(*algorithm as nat) + ")"@,
            ProposalAction::DeprecateAlgorithm(id) => "Deprecar algoritmo id "@ + decimal(
                *id as nat,
            ),
            ProposalAction::RetireAlgorithm(id) => "Retirar algoritmo id "@ + decimal(*id as nat),
        }
    }

    /// The action in words.
    pub fn label(&self) -> (text: String)
        ensures
            text@ == self.said(),
    {
        match self {
            ProposalAction::SetBaseFeePerByte(v) => joined(
                "Fijar fee base por byte = ",
                decimal_text(*v).as_str(),
            ),
            ProposalAction::SetDustThreshold(v) => joined(
                "Fijar umbral de polvo = ",
                decimal_text(*v).as_str(),
            ),
            ProposalAction::SetGasPricePerFuel(v) => joined(
                "Fijar precio de gas por fuel = ",
                decimal_text(*v).as_str(),
            ),
            ProposalAction::SetStakingCommissionBps(v) => joined(
                joined("Fijar comisión de staking = ", decimal_text(*v).as_str()).as_str(),
                " bps",
            ),
            ProposalAction::SetEmissionApr(v) => joined(
                joined("Fijar emisión (APR) = ", decimal_text(*v).as_str()).as_str(),
                " bps",
            ),
            ProposalAction::ActivateAlgorithm { name, algorithm } => {
                let named = joined("Activar algoritmo ", name.as_str());
                let opened = joined(named.as_str(), " (id ");
                let numbered = joined(opened.as_str(), decimal_text(*algorithm).as_str());
                joined(numbered.as_str(), ")")
            },
            ProposalAction::DeprecateAlgorithm(id) => joined(
                "Deprecar algoritmo id ",
                decimal_text(*id).as_str(),
            ),
            ProposalAction::RetireAlgorithm(id) => joined(
                "Retirar algoritmo id ",
                decimal_text(*id).as_str(),
            ),
        }
    }
}

impl RiskTier {
    /// What the tier is called.
    pub fn label(&self) -> (name: &'static str)
        ensures
            name@ == match self {
                RiskTier::Low => "low"@,
                RiskTier::Economic => "economic"@,
                RiskTier::Registry => "registry"@,
            },
    {
        match self {
            RiskTier::Low => "low",
            RiskTier::Economic => "economic",
            RiskTier::Registry => "registry",
        }
    }

    /// Whether the registry is what carries the proposal out.
    pub fn is_registry(&self) -> (registry: bool)
        ensures
            registry == (*self == RiskTier::Registry),
    {
        match self {
            RiskTier::Registry => true,
            _ => false,
        }
    }
}

} // verus!
