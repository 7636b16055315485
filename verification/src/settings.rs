//! The settings that describe a problem instance and a pairing strategy.

use vstd::prelude::*;

use crate::text::{decimal, usize_to_decimal};

verus! {

/// Which problem is solved, and how large an instance is generated.
#[derive(Debug, Clone, Copy, PartialEq, Eq, Structural)]
pub enum ProblemSettings {
    Tsp { size: usize },
    Rofa { nodes: usize, links_percentage: usize, demands_percentage: usize, link_types: usize },
}

/// How the parents beyond the selected individuals are drawn.
#[derive(Debug, Clone, Copy, PartialEq, Eq, Structural)]
pub enum IndividualQuantity {
    Random,
    Elite { percentage: usize },
    AntiElite { percentage: usize },
    FitnessProportionate,
}

/// The pairing strategy and its parameters.
#[derive(Debug, Clone, Copy, PartialEq, Eq, Structural)]
pub enum PairingSettings {
    AsexualPairing { quantity: IndividualQuantity },
    RandomPairing { quantity: IndividualQuantity },
    SimilarFitnessPairing { quantity: IndividualQuantity, similarity: usize },
    SpatialDistancePairing {
        quantity: IndividualQuantity,
        desired_individual_distance_percentage: usize,
    },
}

/// Every pairing strategy's quantity is the quantity it was built with,
/// whatever its kind and its other settings.
pub proof fn lemma_quantity_as_built(quantity: IndividualQuantity, similarity: usize, distance: usize)
    ensures
        (PairingSettings::AsexualPairing { quantity }).quantity_of() == quantity,
        (PairingSettings::RandomPairing { quantity }).quantity_of() == quantity,
        (PairingSettings::SimilarFitnessPairing { quantity, similarity }).quantity_of() == quantity,
        (PairingSettings::SpatialDistancePairing { quantity, desired_individual_distance_percentage: distance }).quantity_of()
            == quantity,
{
}

impl ProblemSettings {
    /// The text that `description` returns.
    pub open spec fn description_text(self) -> Seq<char> {
        match self {
            ProblemSettings::Tsp { size } => "Tsp size:"@ + decimal(size as nat),
            ProblemSettings::Rofa { nodes, links_percentage, demands_percentage, link_types } =>
                "Rofa nodes:"@ + decimal(nodes as nat) + " links_per:"@ + decimal(
                    links_percentage as nat,
                ) + " demands_per:"@ + decimal(demands_percentage as nat) + " link_types:"@
                    + decimal(link_types as nat),
        }
    }

    /// A human readable description, such as `Tsp size:10`.
    pub fn description(&self) -> (s: String)
        ensures
            s@ == self.description_text(),
    {
        match self {
            ProblemSettings::Tsp { size } => {
                let mut s = String::from_str("Tsp size:");
                s.append(usize_to_decimal(*size).as_str());
                s
            },
            ProblemSettings::Rofa { nodes, links_percentage, demands_percentage, link_types } => {
                let mut s = String::from_str("Rofa nodes:");
                s.append(usize_to_decimal(*nodes).as_str());
                s.append(" links_per:");
                s.append(usize_to_decimal(*links_percentage).as_str());
                s.append(" demands_per:");
                s.append(usize_to_decimal(*demands_percentage).as_str());
                s.append(" link_types:");
                s.append(usize_to_decimal(*link_types).as_str());
                s
            },
        }
    }
}

impl IndividualQuantity {
    /// The text that `description` returns.
    pub open spec fn description_text(self) -> Seq<char> {
        match self {
            IndividualQuantity::Random => "Random"@,
            IndividualQuantity::Elite { percentage } => "Elite("@ + decimal(percentage as nat)
                + "%)"@,
            IndividualQuantity::AntiElite { percentage } => "AntiElite("@ + decimal(
                percentage as nat,
            ) + "%)"@,
            IndividualQuantity::FitnessProportionate => "FitnessProportionate"@,
        }
    }

    /// A human readable description, such as `Elite(5%)`.
    pub fn description(&self) -> (s: String)
        ensures
            s@ == self.description_text(),
    {
        match self {
            IndividualQuantity::Random => String::from_str("Random"),
            IndividualQuantity::Elite { percentage } => {
                let mut s = String::from_str("Elite(");
                s.append(usize_to_decimal(*percentage).as_str());
                s.append("%)");
                s
            },
            IndividualQuantity::AntiElite { percentage } => {
                let mut s = String::from_str("AntiElite(");
                s.append(usize_to_decimal(*percentage).as_str());
                s.append("%)");
                s
            },
            IndividualQuantity::FitnessProportionate => String::from_str("FitnessProportionate"),
        }
    }
}

impl PairingSettings {
    /// The quantity setting that every pairing strategy carries.
    pub open spec fn quantity_of(self) -> IndividualQuantity {
        match self {
            PairingSettings::AsexualPairing { quantity } => quantity,
            PairingSettings::RandomPairing { quantity } => quantity,
            PairingSettings::SimilarFitnessPairing { quantity, .. } => quantity,
            PairingSettings::SpatialDistancePairing { quantity, .. } => quantity,
        }
    }

    /// The text that `description` returns.
    pub open spec fn description_text(self) -> Seq<char> {
        match self {
            PairingSettings::AsexualPairing { quantity } => "Asexual<"@
                + quantity.description_text() + ">"@,
            PairingSettings::RandomPairing { quantity } => "Random<"@ + quantity.description_text()
                + ">"@,
            PairingSettings::SimilarFitnessPairing { quantity, similarity } => "SimilarFitness("@
                + decimal(similarity as nat) + "%)<"@ + quantity.description_text() + ">"@,
            PairingSettings::SpatialDistancePairing {
                quantity,
                desired_individual_distance_percentage,
            } => "SpatialDistance("@ + decimal(desired_individual_distance_percentage as nat)
                + "%)<"@ + quantity.description_text() + ">"@,
        }
    }

    /// A human readable description, such as `SimilarFitness(40%)<Random>`.
    pub fn description(&self) -> (s: String)
        ensures
            s@ == self.description_text(),
    {
        match self {
            PairingSettings::AsexualPairing { quantity } => {
                let mut s = String::from_str("Asexual<");
                s.append(quantity.description().as_str());
                s.append(">");
                s
            },
            PairingSettings::RandomPairing { quantity } => {
                let mut s = String::from_str("Random<");
                s.append(quantity.description().as_str());
                s.append(">");
                s
            },
            PairingSettings::SimilarFitnessPairing { quantity, similarity } => {
                let mut s = String::from_str("SimilarFitness(");
                s.append(usize_to_decimal(*similarity).as_str());
                s.append("%)<");
                s.append(quantity.description().as_str());
                s.append(">");
                s
            },
            PairingSettings::SpatialDistancePairing {
                quantity,
                desired_individual_distance_percentage,
            } => {
                let mut s = String::from_str("SpatialDistance(");
                s.append(usize_to_decimal(*desired_individual_distance_percentage).as_str());
                s.append("%)<");
                s.append(quantity.description().as_str());
                s.append(">");
                s
            },
        }
    }

    /// The quantity setting of the strategy.
    pub fn quantity(&self) -> (q: &IndividualQuantity)
        ensures
            *q == self.quantity_of(),
    {
        match self {
            PairingSettings::AsexualPairing { quantity } => quantity,
            PairingSettings::RandomPairing { quantity } => quantity,
            PairingSettings::SimilarFitnessPairing { quantity, .. } => quantity,
            PairingSettings::SpatialDistancePairing { quantity, .. } => quantity,
        }
    }
}

} // verus!
