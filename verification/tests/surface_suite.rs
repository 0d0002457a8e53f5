use higher_core::names::{core_version, env_label, model_name, sweep_run_names, VERSION};

#[test]
fn a_superficie_wasm_reexporta_a_convencao_de_nomes() {
    assert_eq!(model_name(14), "higher-14");
    assert_eq!(model_name(8), "base-8");
    assert_eq!(model_name(0), "");
    assert_eq!(model_name(33), "");
    assert_eq!(env_label(), "wasm");
    assert_eq!(core_version(), VERSION);

    let lista = sweep_run_names();
    let nomes: Vec<&str> = lista.split(',').collect();
    assert_eq!(nomes.len(), 32);
    assert_eq!(nomes[0], "lower-1:M2");
    assert_eq!(nomes[7], "base-8:M2");
    assert_eq!(nomes[31], "higher-32:M2");
}

#[test]
fn crate_version_is_exported_at_the_root() {
    assert_eq!(higher_core::VERSION, "0.1.0");
    assert_eq!(model_name(3), "lower-3");
}
