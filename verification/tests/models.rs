use salvosim::error::{ConfigLoadError, SalvoSimError};
use salvosim::models::{Attacker, Defender, Doctrine, ScenarioConfig, ScenarioMeta};
use salvosim::validation::validate_scenario;

#[test]
fn doctrine_labels() {
    assert_eq!(Doctrine::ShootLookShoot.label(), "Shoot-Look-Shoot");
    assert_eq!(Doctrine::ShootShootLook.label(), "Shoot-Shoot-Look");
    assert_eq!(Doctrine::MaxDefense.label(), "Max Defense");
}

#[test]
fn iteration_count_defaults_to_one_thousand() {
    let meta = ScenarioMeta { name: "S".to_string(), description: None, iterations: None };
    assert_eq!(meta.iteration_count(), 1000);
    let meta = ScenarioMeta { name: "S".to_string(), description: None, iterations: Some(7) };
    assert_eq!(meta.iteration_count(), 7);
}

#[test]
fn error_messages_are_kept() {
    let e = SalvoSimError::msg("Server error: boom".to_string());
    assert_eq!(e.message(), "Server error: boom");
    let e = SalvoSimError::msg(String::from("owned"));
    assert_eq!(e.message(), "owned");
    let c = ConfigLoadError::new("Os { code: 2 }".to_string());
    assert_eq!(c.message(), "Os { code: 2 }");
    let converted: SalvoSimError = c.into();
    assert_eq!(converted.message(), "Os { code: 2 }");
}

fn scenario(defenders: Vec<Defender>, attackers: Vec<Attacker>) -> ScenarioConfig {
    ScenarioConfig {
        scenario: ScenarioMeta { name: "V".to_string(), description: None, iterations: None },
        defenders,
        attackers,
    }
}

fn ship(name: &str, staying_power: u32) -> Defender {
    Defender {
        name: name.to_string(),
        staying_power,
        magazine_depth: 4,
        max_engagement_capacity: 2,
        doctrine: Doctrine::ShootLookShoot,
    }
}

fn strike(name: &str, target: &str) -> Attacker {
    Attacker {
        name: name.to_string(),
        target_name: target.to_string(),
        salvo_schedule: vec![2],
        pko_label: "80%".to_string(),
    }
}

#[test]
fn valid_scenarios_pass_validation() {
    let cfg = scenario(vec![ship("Cruiser", 4)], vec![strike("Sub", "Cruiser")]);
    assert!(validate_scenario(&cfg).is_ok());
}

#[test]
fn defenders_need_staying_power() {
    let cfg = scenario(vec![ship("Cruiser", 4), ship("Hulk", 0)], vec![strike("Sub", "Cruiser")]);
    let e = validate_scenario(&cfg).unwrap_err();
    assert_eq!(e.message(), "Defender has no staying power: Hulk");
}

#[test]
fn attackers_need_a_configured_target() {
    let cfg = scenario(vec![ship("Cruiser", 4)], vec![strike("Sub", "Cruiser"), strike("Air", "cruiser")]);
    let e = validate_scenario(&cfg).unwrap_err();
    assert_eq!(e.message(), "Attacker Air targets an unknown defender: cruiser");
}
