use cw_plus::multitest::bank::{BankError, BankState, SimpleBank};
use cw_plus::multitest::coin::coin;
use cw_plus::multitest::instantiate::{decode_instantiate_data, encode_instantiate_data};
use cw_plus::multitest::wasm::{
    build_app_response, init_response, parse_contract_addr, reply_for, submsg_outcome,
    verify_response, AppResponse, Attribute, ContractData, EntryPoint, Event, ReplyOn, Response,
    SubMsg, WasmError, WasmKeeper, WasmMsg, WasmState, CallError,
};

fn attr(k: &str, v: &str) -> Attribute {
    Attribute { key: k.to_string(), value: v.to_string() }
}

fn event(ty: &str, attributes: Vec<Attribute>) -> Event {
    Event { ty: ty.to_string(), attributes }
}

fn response(attributes: Vec<Attribute>, events: Vec<Event>) -> Response<()> {
    Response { messages: vec![], attributes, events, data: None }
}

#[test]
fn empty_attribute_key() {
    let r = response(vec![attr("   ", "value"), attr("proper", "proper_val")], vec![]);
    assert_eq!(
        verify_response(r).unwrap_err(),
        WasmError::EmptyAttributeKey { value: "value".to_string() }
    );
}

#[test]
fn empty_attribute_value() {
    let r = response(vec![attr("key", "   "), attr("proper", "proper_val")], vec![]);
    assert_eq!(
        verify_response(r).unwrap_err(),
        WasmError::EmptyAttributeValue { key: "key".to_string() }
    );
}

#[test]
fn empty_event_attribute_key() {
    let r = response(vec![], vec![event("event", vec![attr("   ", "value"), attr("proper", "proper_val")])]);
    assert_eq!(
        verify_response(r).unwrap_err(),
        WasmError::EmptyAttributeKey { value: "value".to_string() }
    );
}

#[test]
fn empty_event_attribute_value() {
    let r = response(vec![], vec![event("event", vec![attr("key", "   "), attr("proper", "proper_val")])]);
    assert_eq!(
        verify_response(r).unwrap_err(),
        WasmError::EmptyAttributeValue { key: "key".to_string() }
    );
}

#[test]
fn too_short_event_type() {
    let r = response(vec![], vec![event(" e ", vec![]), event("event", vec![])]);
    assert_eq!(verify_response(r).unwrap_err(), WasmError::EventTypeTooShort { ty: "e".to_string() });
}

#[test]
fn reserved_attribute_keys_are_refused() {
    let r = response(vec![attr("_contract_addr", "x")], vec![]);
    assert_eq!(
        verify_response(r).unwrap_err(),
        WasmError::ReservedAttributeKey { key: "_contract_addr".to_string() }
    );
    let ok = response(vec![attr("action", "go")], vec![event("ev", vec![attr("k", "v")])]);
    assert_eq!(verify_response(ok.clone()).unwrap(), ok);
}

#[test]
fn register_contract() {
    let mut state = WasmState::new();
    let mut keeper = WasmKeeper::new();
    let code_id = keeper.store_code();

    // cannot register contract with unregistered codeId
    let e = keeper
        .register_contract(
            &mut state,
            code_id as u64 + 1,
            "foobar".to_string(),
            Some("admin".to_string()),
            "label".to_owned(),
            1000,
        )
        .unwrap_err();
    assert_eq!(e, WasmError::UnregisteredCodeId);

    // we can register a new instance of this code
    let contract_addr = keeper
        .register_contract(
            &mut state,
            code_id as u64,
            "foobar".to_string(),
            Some("admin".to_string()),
            "label".to_owned(),
            1000,
        )
        .unwrap();
    assert_eq!(contract_addr, "Contract #0");

    // verify contract data are as expected
    let contract_data = keeper.load_contract(&state, &contract_addr).unwrap();
    assert_eq!(
        contract_data,
        ContractData {
            code_id,
            creator: "foobar".to_string(),
            admin: Some("admin".to_string()),
            label: "label".to_owned(),
            created: 1000,
        }
    );

    // and the error for an unregistered contract
    assert_eq!(
        keeper.load_contract(&state, &"unregistered".to_string()).unwrap_err(),
        WasmError::ContractNotFound
    );
}

#[test]
fn instantiation_plans_the_call_and_registers_the_contract() {
    let mut state = WasmState::new();
    let mut keeper = WasmKeeper::new();
    let code_id = keeper.store_code();
    let msg = WasmMsg::Instantiate {
        admin: None,
        code_id: code_id as u64,
        msg: b"{}".to_vec(),
        funds: vec![coin(5, "eth")],
        label: "".to_string(),
    };
    assert_eq!(
        keeper.execute_wasm(&mut state, 7, &"owner".to_string(), msg).unwrap_err(),
        WasmError::LabelRequired
    );
    let msg = WasmMsg::Instantiate {
        admin: None,
        code_id: code_id as u64,
        msg: b"{}".to_vec(),
        funds: vec![coin(5, "eth")],
        label: "Echo".to_string(),
    };
    let call = keeper.execute_wasm(&mut state, 7, &"owner".to_string(), msg).unwrap();
    assert_eq!(call.contract, "Contract #0");
    assert_eq!(call.entry, EntryPoint::Instantiate);
    assert_eq!(call.funds, vec![coin(5, "eth")]);
    assert_eq!(call.custom_event.ty, "instantiate");
    assert_eq!(keeper.load_contract(&state, &call.contract).unwrap().created, 7);
}

#[test]
fn instantiate_data_roundtrip() {
    let data = encode_instantiate_data("Contract #3", b"hello");
    let (addr, payload) = decode_instantiate_data(&data).unwrap();
    assert_eq!(addr, "Contract #3");
    assert_eq!(payload, b"hello".to_vec());

    let mut res: Response<()> = response(vec![], vec![]);
    init_response(&mut res, &"Contract #9".to_string());
    assert_eq!(parse_contract_addr(&res.data).unwrap(), "Contract #9");
    assert_eq!(parse_contract_addr(&None).unwrap_err(), WasmError::NoDataResponse);
    assert_eq!(
        parse_contract_addr(&Some(vec![0xff])).unwrap_err(),
        WasmError::InvalidInstantiateData
    );
}

#[test]
fn app_response_names_the_contract() {
    let custom = event("execute", vec![attr("_contract_addr", "c")]);
    let sub = SubMsg { id: 1, msg: (), gas_limit: None, reply_on: ReplyOn::Never };
    let res = Response {
        messages: vec![sub.clone()],
        attributes: vec![attr("action", "go")],
        events: vec![event("custom", vec![attr("k", "v")])],
        data: Some(b"d".to_vec()),
    };
    let (app, msgs) = build_app_response(&"c".to_string(), custom.clone(), res);
    assert_eq!(msgs, vec![sub]);
    assert_eq!(
        app.events,
        vec![
            custom,
            event("wasm", vec![attr("_contract_addr", "c"), attr("action", "go")]),
            event("wasm-custom", vec![attr("_contract_addr", "c"), attr("k", "v")]),
        ]
    );
    assert_eq!(app.data, Some(b"d".to_vec()));
}

#[test]
fn replies_follow_reply_on() {
    let ok: Result<AppResponse, String> = Ok(AppResponse { events: vec![event("a", vec![])], data: None });
    let err: Result<AppResponse, String> = Err("boom".to_string());
    assert!(reply_for(1, ReplyOn::Never, &ok).is_none());
    assert!(reply_for(1, ReplyOn::Error, &ok).is_none());
    assert_eq!(reply_for(1, ReplyOn::Success, &ok).unwrap().id, 1);
    assert!(reply_for(2, ReplyOn::Always, &err).unwrap().result.is_err());

    let reply = Ok(AppResponse { events: vec![event("b", vec![])], data: Some(b"r".to_vec()) });
    let (resp, data) = submsg_outcome(ok, Some(reply)).unwrap();
    assert_eq!(resp.events, vec![event("a", vec![]), event("b", vec![])]);
    assert_eq!(data, Some(b"r".to_vec()));
    assert_eq!(submsg_outcome(err, None).unwrap_err(), "boom");
}

#[test]
fn has_event_finds_supersets() {
    let resp = AppResponse {
        events: vec![
            event("wasm", vec![attr("_contract_addr", "c"), attr("action", "go"), attr("n", "1")]),
            event("transfer", vec![attr("to", "bob")]),
        ],
        data: None,
    };
    assert!(resp.has_event(&event("wasm", vec![attr("action", "go")])));
    assert!(resp.has_event(&event("transfer", vec![])));
    assert!(!resp.has_event(&event("wasm", vec![attr("action", "stop")])));
    assert!(!resp.has_event(&event("mint", vec![])));
}

#[test]
fn funds_move_before_the_call() {
    use_funds_scenario();
}

fn use_funds_scenario() {
    let bank = SimpleBank {};
    let mut store = BankState::new();
    let mut keeper = WasmKeeper::new();
    let mut state = WasmState::new();
    let owner = "owner".to_string();
    keeper.store_code();
    let init = WasmMsg::Instantiate {
        admin: None,
        code_id: 1,
        msg: b"{}".to_vec(),
        funds: vec![],
        label: "Hackatom".to_string(),
    };
    let contract = keeper.execute_wasm(&mut state, 1, &owner, init).unwrap().contract;
    bank.set_balance(&mut store, &owner, vec![coin(30, "btc")]);
    // the instantiation took 10 btc along
    keeper.send(&bank, &mut store, &owner, &contract, vec![coin(10, "btc")]).unwrap();
    // a call with 20 btc is decided, then its funds move before the contract runs
    let call = keeper
        .execute_wasm(
            &mut state,
            1,
            &owner,
            WasmMsg::Execute { contract_addr: contract.clone(), msg: b"{}".to_vec(), funds: vec![coin(20, "btc")] },
        )
        .unwrap();
    keeper.send(&bank, &mut store, &owner, &call.contract, call.funds.clone()).unwrap();
    assert_eq!(bank.get_balance(&store, &owner), vec![]);
    assert_eq!(bank.get_balance(&store, &contract), vec![coin(30, "btc")]);
    // an execution of an address where no contract is stored is refused
    let msg = WasmMsg::Execute { contract_addr: "nobody".to_string(), msg: vec![], funds: vec![] };
    assert_eq!(keeper.execute_wasm(&mut state, 1, &owner, msg).unwrap_err(), WasmError::ContractNotFound);
    // no funds, nothing moves; too many funds, the send fails and nothing moves
    keeper.send(&bank, &mut store, &owner, &contract, vec![]).unwrap();
    assert_eq!(
        keeper.send(&bank, &mut store, &owner, &contract, vec![coin(1, "btc")]),
        Err(BankError::Overflow)
    );
    assert_eq!(bank.get_balance(&store, &contract), vec![coin(30, "btc")]);
}

#[test]
fn error_constructors_name_the_fault() {
    assert_eq!(
        WasmError::empty_attribute_key("v".to_string()),
        WasmError::EmptyAttributeKey { value: "v".to_string() }
    );
    assert_eq!(
        WasmError::event_type_too_short("a".to_string()),
        WasmError::EventTypeTooShort { ty: "a".to_string() }
    );
}

#[test]
fn instantiate_data_struct_roundtrip() {
    use_instantiate_data();
}

fn use_instantiate_data() {
    let d = cw_plus::multitest::instantiate::InstantiateData {
        address: "contract0".to_string(),
        data: b"hi".to_vec(),
    };
    let bytes = d.encode_to_vec();
    assert_eq!(bytes, b"\x0a\x09contract0\x12\x02hi".to_vec());
    assert_eq!(cw_plus::multitest::instantiate::InstantiateData::decode(&bytes), Some(d));
    assert_eq!(cw_plus::multitest::instantiate::InstantiateData::decode(b"\x0a\x09con"), None);
}

#[test]
fn handled_messages_carry_their_funds() {
    let bank = SimpleBank {};
    let mut store = BankState::new();
    let mut keeper = WasmKeeper::new();
    let mut state = WasmState::new();
    let owner = "owner".to_string();
    keeper.store_code();
    bank.set_balance(&mut store, &owner, vec![coin(30, "btc")]);
    let init = WasmMsg::Instantiate {
        admin: None,
        code_id: 1,
        msg: b"{}".to_vec(),
        funds: vec![coin(10, "btc")],
        label: "Hackatom".to_string(),
    };
    let call = keeper.handle_wasm(&mut state, &bank, &mut store, 1, &owner, init, Ok(())).unwrap();
    let contract = call.contract.clone();
    assert_eq!(contract, "Contract #0".to_string());
    assert_eq!(call.entry, EntryPoint::Instantiate);
    assert_eq!(bank.get_balance(&store, &contract), vec![coin(10, "btc")]);
    let exec = WasmMsg::Execute {
        contract_addr: contract.clone(),
        msg: b"{}".to_vec(),
        funds: vec![coin(20, "btc")],
    };
    let call = keeper.handle_wasm(&mut state, &bank, &mut store, 2, &owner, exec, Ok(())).unwrap();
    assert_eq!(call.entry, EntryPoint::Execute);
    assert_eq!(bank.get_balance(&store, &owner), vec![]);
    assert_eq!(bank.get_balance(&store, &contract), vec![coin(30, "btc")]);
    // too many funds: the bank refuses and nothing moves
    let exec = WasmMsg::Execute {
        contract_addr: contract.clone(),
        msg: b"{}".to_vec(),
        funds: vec![coin(1, "btc")],
    };
    assert_eq!(
        keeper.handle_wasm(&mut state, &bank, &mut store, 3, &owner, exec, Ok(())).unwrap_err(),
        CallError::Bank(BankError::Overflow)
    );
    assert_eq!(bank.get_balance(&store, &contract), vec![coin(30, "btc")]);
    // a refused message moves nothing
    let bad = WasmMsg::Instantiate {
        admin: None,
        code_id: 7,
        msg: b"{}".to_vec(),
        funds: vec![coin(1, "btc")],
        label: "x".to_string(),
    };
    assert_eq!(
        keeper.handle_wasm(&mut state, &bank, &mut store, 4, &owner, bad, Ok(())).unwrap_err(),
        CallError::Wasm(WasmError::UnregisteredCodeId)
    );
    // an address the chain refuses stops an execution before any funds move
    let exec = WasmMsg::Execute {
        contract_addr: "Contract #0".to_string(),
        msg: b"{}".to_vec(),
        funds: vec![coin(5, "btc")],
    };
    let refused = Err("Invalid input: address not normalized".to_string());
    assert_eq!(
        keeper.handle_wasm(&mut state, &bank, &mut store, 5, &owner, exec, refused).unwrap_err(),
        CallError::Wasm(WasmError::InvalidAddress {
            msg: "Invalid input: address not normalized".to_string()
        })
    );
    assert_eq!(bank.get_balance(&store, &contract), vec![coin(30, "btc")]);
}
